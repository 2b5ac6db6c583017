//! Carrying out a plan.
//!
//! The entries are taken by depth, the deepest first. Within a depth every
//! entry is first moved aside to a temporary name next to it, and only then are
//! the temporary names moved to the targets. So chains, cycles and renames that
//! change the case alone all go the same way.
//!
//! [`Applier`] decides what to do next; its owner looks at the disk, performs
//! the renames and reports what came of them.

use vstd::prelude::*;
use vstd::utf8::*;
use crate::moves;
use crate::moves::Move;
use crate::names;
use crate::path;
use crate::path::PathName;
use crate::rename;
use crate::rename::{PlanEntry, Planned};
use crate::text;

verus! {

// ---- grouping by depth --------------------------------------------------------

/// The entries of one depth, in plan order.
#[derive(Debug)]
pub struct DepthGroup {
    pub depth: usize,
    pub entries: Vec<PlanEntry>,
}

/// What a group of entries says.
pub struct Group {
    pub depth: nat,
    pub entries: Seq<Planned>,
}

impl View for DepthGroup {
    type V = Group;

    open spec fn view(&self) -> Group {
        Group { depth: self.depth as nat, entries: rename::planned(self.entries@) }
    }
}

/// What a sequence of groups says.
pub open spec fn grouped(groups: Seq<DepthGroup>) -> Seq<Group> {
    groups.map_values(|g: DepthGroup| g@)
}

/// The entries of one depth, in plan order.
pub open spec fn of_depth(plan: Seq<Planned>, depth: nat) -> Seq<Planned> {
    plan.filter(|e: Planned| e.depth == depth)
}

/// Whether one of the groups has the given depth.
pub open spec fn has_depth(groups: Seq<Group>, depth: nat) -> bool {
    exists|i: int| 0 <= i < groups.len() && (#[trigger] groups[i]).depth == depth
}

/// Whether the groups are the entries of the plan by depth, the deepest first.
pub open spec fn are_depth_groups(plan: Seq<Planned>, groups: Seq<Group>) -> bool {
    &&& forall|i: int, j: int| 0 <= i < j < groups.len() ==> groups[i].depth > groups[j].depth
    &&& forall|i: int|
        0 <= i < groups.len() ==> {
            &&& (#[trigger] groups[i]).entries == of_depth(plan, groups[i].depth)
            &&& groups[i].entries.len() > 0
        }
    &&& forall|k: int| 0 <= k < plan.len() ==> has_depth(groups, (#[trigger] plan[k]).depth)
}

fn entries_of_depth(plan: &Vec<PlanEntry>, depth: usize) -> (entries: Vec<PlanEntry>)
    ensures
        rename::planned(entries@) == of_depth(rename::planned(plan@), depth as nat),
{
    let ghost all = rename::planned(plan@);
    let ghost wanted = |e: Planned| e.depth == depth as nat;
    let mut entries: Vec<PlanEntry> = Vec::new();
    for i in 0..plan.len()
        invariant
            all == rename::planned(plan@),
            wanted == (|e: Planned| e.depth == depth as nat),
            rename::planned(entries@) == all.take(i as int).filter(wanted),
    {
        proof {
            assert(all.take(i + 1).drop_last() == all.take(i as int));
            assert(all.take(i + 1).last() == plan@[i as int]@);
            reveal(Seq::filter);
        }
        if plan[i].depth == depth {
            let ghost before = entries@;
            entries.push(plan[i].copy());
            assert(rename::planned(entries@) == rename::planned(before).push(plan@[i as int]@));
        }
    }
    assert(all.take(all.len() as int) == all);
    entries
}

spec fn is_below(depth: usize, bound: Option<usize>) -> bool {
    match bound {
        Some(b) => depth < b,
        None => true,
    }
}

/// The largest depth in the plan below `bound`, if there is one.
fn next_depth(plan: &Vec<PlanEntry>, bound: Option<usize>) -> (depth: Option<usize>)
    ensures
        depth matches Some(d) ==> {
            &&& exists|k: int| 0 <= k < plan@.len() && (#[trigger] plan@[k]).depth == d
            &&& is_below(d, bound)
        },
        forall|k: int|
            0 <= k < plan@.len() && is_below((#[trigger] plan@[k]).depth, bound)
                ==> depth is Some && plan@[k].depth <= depth->0,
{
    let mut found: Option<usize> = None;
    for i in 0..plan.len()
        invariant
            found matches Some(d) ==> {
                &&& exists|k: int| 0 <= k < i && (#[trigger] plan@[k]).depth == d
                &&& is_below(d, bound)
            },
            forall|k: int|
                0 <= k < i && is_below((#[trigger] plan@[k]).depth, bound)
                    ==> found is Some && plan@[k].depth <= found->0,
    {
        let depth = plan[i].depth;
        let below: bool = match bound {
            Some(b) => depth < b,
            None => true,
        };
        let larger = match found {
            Some(d) => depth > d,
            None => true,
        };
        if below && larger {
            found = Some(depth);
            assert(plan@[i as int].depth == depth);
        }
    }
    found
}

/// The entries of a plan by depth, the deepest first.
pub fn group_by_depth(plan: &Vec<PlanEntry>) -> (groups: Vec<DepthGroup>)
    ensures
        are_depth_groups(rename::planned(plan@), grouped(groups@)),
{
    let ghost all = rename::planned(plan@);
    let mut groups: Vec<DepthGroup> = Vec::new();
    let mut next = next_depth(plan, None);
    let mut bound: Option<usize> = None;
    while next.is_some()
        invariant
            all == rename::planned(plan@),
            groups@.len() == 0 <==> bound is None,
            bound matches Some(b) ==> groups@.last().depth == b,
            forall|i: int, j: int|
                0 <= i < j < groups@.len() ==> groups@[i].depth > groups@[j].depth,
            forall|i: int|
                0 <= i < groups@.len() ==> {
                    &&& (#[trigger] groups@[i])@.entries == of_depth(all, groups@[i].depth as nat)
                    &&& groups@[i]@.entries.len() > 0
                },
            next matches Some(d) ==> {
                &&& exists|k: int| 0 <= k < plan@.len() && (#[trigger] plan@[k]).depth == d
                &&& is_below(d, bound)
            },
            forall|k: int|
                0 <= k < plan@.len() && is_below((#[trigger] plan@[k]).depth, bound)
                    ==> next is Some && plan@[k].depth <= next->0,
            forall|k: int|
                0 <= k < plan@.len() && !is_below((#[trigger] plan@[k]).depth, bound)
                    ==> exists|i: int|
                    0 <= i < groups@.len() && (#[trigger] groups@[i]).depth == plan@[k].depth,
        decreases
            (match next {
                Some(d) => d + 1,
                None => 0,
            }),
    {
        let depth = next.unwrap();
        let entries = entries_of_depth(plan, depth);
        proof {
            let k = choose|k: int| 0 <= k < plan@.len() && (#[trigger] plan@[k]).depth == depth;
            let wanted = |e: Planned| e.depth == depth as nat;
            assert(all[k] == plan@[k]@);
            all.lemma_filter_contains(wanted, k);
        }
        let ghost before = groups@;
        groups.push(DepthGroup { depth, entries });
        next = next_depth(plan, Some(depth));
        bound = Some(depth);
        proof {
            assert forall|k: int|
                0 <= k < plan@.len() && (#[trigger] plan@[k]).depth >= depth implies exists|i: int|
                0 <= i < groups@.len() && (#[trigger] groups@[i]).depth == plan@[k].depth by {
                if plan@[k].depth == depth {
                    assert(groups@[groups@.len() - 1].depth == plan@[k].depth);
                } else {
                    let i = choose|i: int|
                        0 <= i < before.len() && (#[trigger] before[i]).depth == plan@[k].depth;
                    assert(groups@[i].depth == plan@[k].depth);
                }
            }
        }
    }
    proof {
        let gs = grouped(groups@);
        assert forall|i: int, j: int| 0 <= i < j < gs.len() implies gs[i].depth > gs[j].depth by {
            assert(groups@[i].depth > groups@[j].depth);
        }
        assert forall|k: int| 0 <= k < all.len() implies has_depth(
            gs,
            (#[trigger] all[k]).depth,
        ) by {
            assert(plan@[k]@ == all[k]);
            let i = choose|i: int|
                0 <= i < groups@.len() && (#[trigger] groups@[i]).depth == plan@[k].depth;
            assert(gs[i].depth == all[k].depth);
        }
        assert forall|i: int| 0 <= i < gs.len() implies {
            &&& (#[trigger] gs[i]).entries == of_depth(all, gs[i].depth)
            &&& gs[i].entries.len() > 0
        } by {
            assert(groups@[i]@ == gs[i]);
        }
    }
    groups
}

// ---- temporary paths ------------------------------------------------------------

/// The path next to `old` that it is moved aside to.
pub open spec fn temp_path(old: Seq<u8>, pid: nat, counter: nat) -> Seq<u8> {
    let dir = match path::parent(old) {
        Some(dir) => dir,
        None => seq![path::DOT],
    };
    path::join(dir, encode_utf8(temp_name(path::file_name(old)->0, pid, counter)))
}

/// The name that an entry is moved aside to.
pub open spec fn temp_name(base: Seq<u8>, pid: nat, counter: nat) -> Seq<char> {
    text::lossy(base) + ".ren-"@ + text::decimal(pid) + "-"@ + text::zero_filled(
        text::decimal(counter),
        8,
    )
}

/// Whether a path is one that an entry is moved aside to.
pub open spec fn is_temp(old: Seq<u8>, pid: nat, temp: Seq<u8>) -> bool {
    exists|counter: nat| temp == #[trigger] temp_path(old, pid, counter)
}

/// Whether the paths are such as the entries are moved aside to.
pub open spec fn are_temps(entries: Seq<Planned>, temps: Seq<Seq<u8>>, pid: nat) -> bool {
    forall|i: int| 0 <= i < temps.len() ==> is_temp(entries[i].old, pid, #[trigger] temps[i])
}

/// The path next to `old` that it is moved aside to.
pub fn make_temp_path(old: &PathName, pid: u32, counter: u64) -> (temp: PathName)
    requires
        path::file_name(old@) is Some,
    ensures
        temp@ == temp_path(old@, pid as nat, counter as nat),
{
    let dir = match old.parent() {
        Some(dir) => dir,
        None => {
            let mut bytes: Vec<u8> = Vec::new();
            bytes.push(path::DOT);
            assert(bytes@ =~= seq![path::DOT]);
            PathName { bytes }
        },
    };
    let base = old.file_name().unwrap();
    let mut name = text::decode_lossy(&base);
    name.push_str(".ren-");
    let number = text::decimal_string(pid as u64);
    name.push_str(number.as_str());
    name.push_str("-");
    let number = text::padded_decimal(counter, 8);
    name.push_str(number.as_str());
    let name = PathName::from_text(name.as_str());
    dir.join(&name.bytes)
}

// ---- the run ----------------------------------------------------------------

/// How often another temporary path is tried for an entry whose first one
/// turned out to be taken.
pub const MAX_RETRIES: usize = 16;

/// What to do next.
#[derive(Debug)]
pub enum Action {
    /// Look whether anything is at the path.
    Probe { path: PathName },
    /// Rename.
    Rename { from: PathName, to: PathName },
    /// Nothing: all entries are where they were to go.
    Succeed,
    /// Nothing: the run has failed.
    Fail,
}

/// What came of an action.
#[derive(Debug)]
pub enum Event {
    /// Whether something is at the path that was looked at.
    Probed { occupied: bool },
    /// The rename was performed.
    Renamed,
    /// The rename was refused, maybe because its target exists.
    Refused { already_exists: bool, cause: String },
}

/// Why a run failed.
#[derive(Debug)]
pub enum Failure {
    /// An entry could not be moved aside.
    Parking { depth: usize, from: PathName, to: PathName, cause: String },
    /// An entry could not be put into place.
    Placing { depth: usize, cause: String },
}

/// Where a run stands.
#[derive(Debug)]
pub enum Stage {
    /// A temporary path is being looked at for the next entry.
    Choosing { attempt: usize, candidate: PathName },
    /// The next entry is being moved to its temporary path.
    Parking { attempt: usize, candidate: PathName },
    /// All entries of the depth are aside, the first `placed` of them in place.
    Placing { placed: usize },
    /// Entries in place are being taken back; `left` of them remain.
    Unplacing { left: usize, cause: String },
    /// Entries aside are being taken back; `left` of them remain.
    Unparking { left: usize, cause: String },
    /// The run is over.
    Finished { failure: Option<Failure> },
}

/// Carries out a plan, one action at a time.
pub struct Applier {
    groups: Vec<DepthGroup>,
    at: usize,
    parked: Vec<PathName>,
    stage: Stage,
    pid: u32,
    counter: u64,
    trace: Ghost<Trace>,
}

// ---- what a run means ---------------------------------------------------------

/// What came of an action.
pub enum Report {
    Probed(bool),
    Renamed,
    Refused { already_exists: bool, cause: Seq<char> },
}

impl View for Event {
    type V = Report;

    open spec fn view(&self) -> Report {
        match *self {
            Event::Probed { occupied } => Report::Probed(occupied),
            Event::Renamed => Report::Renamed,
            Event::Refused { already_exists, cause } => Report::Refused {
                already_exists,
                cause: cause@,
            },
        }
    }
}

/// Why a run failed.
pub enum Fault {
    Parking { depth: nat, from: Seq<u8>, to: Seq<u8>, cause: Seq<char> },
    Placing { depth: nat, cause: Seq<char> },
}

impl View for Failure {
    type V = Fault;

    open spec fn view(&self) -> Fault {
        match *self {
            Failure::Parking { depth, from, to, cause } => Fault::Parking {
                depth: depth as nat,
                from: from@,
                to: to@,
                cause: cause@,
            },
            Failure::Placing { depth, cause } => Fault::Placing {
                depth: depth as nat,
                cause: cause@,
            },
        }
    }
}

/// Where a run stands.
pub enum Phase {
    Choosing { attempt: nat, candidate: Seq<u8> },
    Parking { attempt: nat, candidate: Seq<u8> },
    Placing { placed: nat },
    Unplacing { left: nat, cause: Seq<char> },
    Unparking { left: nat, cause: Seq<char> },
    Finished(Option<Fault>),
}

impl View for Stage {
    type V = Phase;

    open spec fn view(&self) -> Phase {
        match *self {
            Stage::Choosing { attempt, candidate } => Phase::Choosing {
                attempt: attempt as nat,
                candidate: candidate@,
            },
            Stage::Parking { attempt, candidate } => Phase::Parking {
                attempt: attempt as nat,
                candidate: candidate@,
            },
            Stage::Placing { placed } => Phase::Placing { placed: placed as nat },
            Stage::Unplacing { left, cause } => Phase::Unplacing {
                left: left as nat,
                cause: cause@,
            },
            Stage::Unparking { left, cause } => Phase::Unparking {
                left: left as nat,
                cause: cause@,
            },
            Stage::Finished { failure } => Phase::Finished(
                match failure {
                    Some(f) => Some(f@),
                    None => None,
                },
            ),
        }
    }
}

/// What has happened in a run: the renames that were performed; the temporary
/// paths of the depths that are done; the counters behind the temporary paths
/// of the present depth, and behind the candidate; how many entries were in
/// place when a depth failed; whether every taking back has worked; and whether
/// the counter has run over.
pub struct Trace {
    pub moves: Seq<Move>,
    pub temps: Seq<Seq<Seq<u8>>>,
    pub used: Seq<nat>,
    pub last: nat,
    pub reached: nat,
    pub intact: bool,
    pub wrapped: bool,
}

/// The state of a run.
pub struct Run {
    pub groups: Seq<Group>,
    pub at: nat,
    pub parked: Seq<Seq<u8>>,
    pub phase: Phase,
    pub pid: nat,
    pub counter: nat,
    pub trace: Trace,
}

/// The paths of a sequence of path names.
pub open spec fn paths(names: Seq<PathName>) -> Seq<Seq<u8>> {
    names.map_values(|p: PathName| p@)
}

impl View for Applier {
    type V = Run;

    closed spec fn view(&self) -> Run {
        Run {
            groups: grouped(self.groups@),
            at: self.at as nat,
            parked: paths(self.parked@),
            phase: self.stage@,
            pid: self.pid as nat,
            counter: self.counter as nat,
            trace: self.trace@,
        }
    }
}

impl Run {
    /// The entries of the present depth.
    pub open spec fn entries(self) -> Seq<Planned> {
        self.groups[self.at as int].entries
    }

    /// The present depth.
    pub open spec fn depth(self) -> nat {
        self.groups[self.at as int].depth
    }

    /// The entry that is to be moved aside next.
    pub open spec fn next_entry(self) -> Planned {
        self.entries()[self.parked.len() as int]
    }

    /// Looks at the next temporary path for the next entry.
    pub open spec fn choosing(self, attempt: nat) -> Run {
        let over = self.counter >= u64::MAX;
        Run {
            phase: Phase::Choosing {
                attempt,
                candidate: temp_path(self.next_entry().old, self.pid, self.counter),
            },
            counter: if over {
                0
            } else {
                self.counter + 1
            },
            trace: Trace {
                last: self.counter,
                wrapped: self.trace.wrapped || over,
                ..self.trace
            },
            ..self
        }
    }

    /// Goes on to the depth at `at`, or ends if there is none.
    pub open spec fn starting_group(self) -> Run {
        if self.at < self.groups.len() {
            self.choosing(0)
        } else {
            Run { phase: Phase::Finished(None), ..self }
        }
    }

    /// The run with one more rename performed.
    pub open spec fn with_move(self, from: Seq<u8>, to: Seq<u8>) -> Run {
        Run {
            trace: Trace { moves: self.trace.moves.push(Move { from, to }), ..self.trace },
            ..self
        }
    }

    /// The run after a taking back, which may have been refused.
    pub open spec fn after_undo(self, from: Seq<u8>, to: Seq<u8>, report: Report) -> Run {
        if report is Renamed {
            self.with_move(from, to)
        } else {
            Run { trace: Trace { intact: false, ..self.trace }, ..self }
        }
    }

    /// The rename that is due, if one is.
    pub open spec fn due(self) -> Option<Move> {
        match self.phase {
            Phase::Parking { attempt, candidate } => Some(
                Move { from: self.next_entry().old, to: candidate },
            ),
            Phase::Placing { placed } => Some(
                Move { from: self.parked[placed as int], to: self.entries()[placed as int].new },
            ),
            Phase::Unplacing { left, cause } => Some(
                Move { from: self.entries()[left - 1].new, to: self.parked[left - 1] },
            ),
            Phase::Unparking { left, cause } => Some(
                Move { from: self.parked[left - 1], to: self.entries()[left - 1].old },
            ),
            _ => None,
        }
    }

    /// Whether a report answers what the run asked for.
    pub open spec fn expects(self, report: Report) -> bool {
        match report {
            Report::Probed(_) => self.phase is Choosing,
            _ => self.due() is Some,
        }
    }

    /// The run after a report. One that was not asked for changes nothing.
    pub open spec fn after(self, report: Report) -> Run {
        if !self.expects(report) {
            self
        } else {
            match self.phase {
                Phase::Choosing { attempt, candidate } => if report == Report::Probed(true) {
                    self.choosing(attempt)
                } else {
                    Run { phase: Phase::Parking { attempt, candidate }, ..self }
                },
                Phase::Parking { attempt, candidate } => match report {
                    Report::Refused { already_exists, cause } => if already_exists && attempt
                        < MAX_RETRIES {
                        self.choosing(attempt + 1)
                    } else {
                        Run {
                            phase: Phase::Finished(
                                Some(
                                    Fault::Parking {
                                        depth: self.depth(),
                                        from: self.next_entry().old,
                                        to: candidate,
                                        cause,
                                    },
                                ),
                            ),
                            ..self
                        }
                    },
                    _ => {
                        let moved = self.with_move(self.next_entry().old, candidate);
                        let next = Run {
                            parked: self.parked.push(candidate),
                            trace: Trace {
                                used: self.trace.used.push(self.trace.last),
                                ..moved.trace
                            },
                            ..moved
                        };
                        if next.parked.len() < next.entries().len() {
                            next.choosing(0)
                        } else {
                            Run { phase: Phase::Placing { placed: 0 }, ..next }
                        }
                    },
                },
                Phase::Placing { placed } => match report {
                    Report::Refused { already_exists, cause } => Run {
                        phase: if placed > 0 {
                            Phase::Unplacing { left: placed, cause }
                        } else {
                            Phase::Unparking { left: self.entries().len(), cause }
                        },
                        trace: Trace { reached: placed, ..self.trace },
                        ..self
                    },
                    _ => {
                        let moved = self.with_move(
                            self.parked[placed as int],
                            self.entries()[placed as int].new,
                        );
                        if placed + 1 < self.entries().len() {
                            Run { phase: Phase::Placing { placed: placed + 1 }, ..moved }
                        } else {
                            Run {
                                at: self.at + 1,
                                parked: Seq::empty(),
                                trace: Trace {
                                    temps: self.trace.temps.push(self.parked),
                                    used: Seq::empty(),
                                    ..moved.trace
                                },
                                ..moved
                            }.starting_group()
                        }
                    },
                },
                Phase::Unplacing { left, cause } => Run {
                    phase: if left > 1 {
                        Phase::Unplacing { left: (left - 1) as nat, cause }
                    } else {
                        Phase::Unparking { left: self.entries().len(), cause }
                    },
                    ..self.after_undo(self.due()->0.from, self.due()->0.to, report)
                },
                Phase::Unparking { left, cause } => Run {
                    phase: if left > 1 {
                        Phase::Unparking { left: (left - 1) as nat, cause }
                    } else {
                        Phase::Finished(Some(Fault::Placing { depth: self.depth(), cause }))
                    },
                    ..self.after_undo(self.due()->0.from, self.due()->0.to, report)
                },
                Phase::Finished(_) => self,
            }
        }
    }

    /// The renames of the first `k` depths, each carried out in full.
    pub open spec fn completed(self, k: nat) -> Seq<Move>
        decreases k,
    {
        if k == 0 {
            Seq::empty()
        } else {
            let j = (k - 1) as nat;
            let entries = self.groups[j as int].entries;
            self.completed(j) + moves::parked_and_placed(
                entries,
                self.trace.temps[j as int],
                entries.len(),
            )
        }
    }

    /// What was done to the present depth before it failed.
    pub open spec fn forward(self) -> Seq<Move> {
        moves::parked_and_placed(self.entries(), self.parked, self.trace.reached)
    }

    /// The renames of the present depth, if every taking back has worked.
    pub open spec fn present(self) -> Seq<Move> {
        match self.phase {
            Phase::Choosing { .. } | Phase::Parking { .. } => moves::parks(
                self.entries(),
                self.parked,
                self.parked.len(),
            ),
            Phase::Placing { placed } => moves::parked_and_placed(
                self.entries(),
                self.parked,
                placed,
            ),
            Phase::Unplacing { left, cause } => self.forward() + moves::undone(
                self.forward(),
            ).take(self.trace.reached - left),
            Phase::Unparking { left, cause } => self.forward() + moves::undone(
                self.forward(),
            ).take(self.trace.reached + self.entries().len() - left),
            Phase::Finished(Some(Fault::Parking { .. })) => moves::parks(
                self.entries(),
                self.parked,
                self.parked.len(),
            ),
            Phase::Finished(Some(Fault::Placing { .. })) => self.forward() + moves::undone(
                self.forward(),
            ),
            Phase::Finished(None) => Seq::empty(),
        }
    }

    /// What holds of a run at all times: the renames performed are those of the
    /// depths that are done, and of the present one as far as it has come.
    pub open spec fn consistent(self) -> bool {
        &&& forall|i: int|
            0 <= i < self.groups.len() ==> (#[trigger] self.groups[i]).entries.len() > 0
        &&& forall|i: int, k: int|
            0 <= i < self.groups.len() && 0 <= k < self.groups[i].entries.len()
                ==> path::file_name((#[trigger] self.groups[i].entries[k]).old) is Some
        &&& self.counter <= u64::MAX
        &&& self.trace.temps.len() == self.at
        &&& self.at <= self.groups.len()
        &&& self.phase != Phase::Finished(None) ==> self.at < self.groups.len()
        &&& self.phase == Phase::Finished(None) ==> self.at == self.groups.len()
        &&& self.trace.intact ==> self.trace.moves == self.completed(self.at) + self.present()
        &&& match self.phase {
            Phase::Choosing { attempt, candidate } => {
                &&& self.parked.len() < self.entries().len()
                &&& attempt <= MAX_RETRIES
                &&& candidate == temp_path(self.next_entry().old, self.pid, self.trace.last)
                &&& self.trace.intact
            },
            Phase::Parking { attempt, candidate } => {
                &&& self.parked.len() < self.entries().len()
                &&& attempt <= MAX_RETRIES
                &&& candidate == temp_path(self.next_entry().old, self.pid, self.trace.last)
                &&& self.trace.intact
            },
            Phase::Placing { placed } => {
                &&& self.parked.len() == self.entries().len()
                &&& placed < self.entries().len()
                &&& self.trace.intact
            },
            Phase::Unplacing { left, cause } => {
                &&& self.parked.len() == self.entries().len()
                &&& 0 < left <= self.trace.reached < self.entries().len()
            },
            Phase::Unparking { left, cause } => {
                &&& self.parked.len() == self.entries().len()
                &&& self.trace.reached < self.entries().len()
                &&& 0 < left <= self.entries().len()
            },
            Phase::Finished(Some(Fault::Parking { depth, from, to, cause })) => {
                &&& self.parked.len() < self.entries().len()
                &&& depth == self.depth()
                &&& from == self.next_entry().old
                &&& self.trace.intact
            },
            Phase::Finished(Some(Fault::Placing { depth, cause })) => {
                &&& self.parked.len() == self.entries().len()
                &&& self.trace.reached < self.entries().len()
                &&& depth == self.depth()
            },
            Phase::Finished(None) => self.trace.intact,
        }
        &&& self.counters_increase()
        &&& !self.trace.wrapped ==> forall|k: int|
            0 <= k < self.trace.temps.len() ==> (#[trigger] self.trace.temps[k]).no_duplicates()
        &&& forall|k: int|
            0 <= k < self.trace.temps.len() ==> {
                &&& (#[trigger] self.trace.temps[k]).len() == self.groups[k].entries.len()
                &&& are_temps(self.groups[k].entries, self.trace.temps[k], self.pid)
            }
    }

    /// The temporary paths of the present depth were made with ever larger
    /// counters.
    pub open spec fn counters_increase(self) -> bool {
        &&& self.trace.used.len() == self.parked.len()
        &&& self.at < self.groups.len() ==> self.parked.len() <= self.entries().len()
        &&& forall|i: int|
            0 <= i < self.parked.len() ==> #[trigger] self.parked[i] == temp_path(
                self.entries()[i].old,
                self.pid,
                self.trace.used[i],
            )
        &&& !self.trace.wrapped ==> {
            &&& forall|i: int, j: int|
                0 <= i < j < self.trace.used.len() ==> self.trace.used[i] < self.trace.used[j]
            &&& forall|i: int|
                0 <= i < self.trace.used.len() ==> #[trigger] self.trace.used[i] < self.counter
            &&& self.phase is Choosing || self.phase is Parking ==> {
                &&& self.trace.last < self.counter
                &&& forall|i: int|
                    0 <= i < self.trace.used.len() ==> #[trigger] self.trace.used[i]
                        < self.trace.last
            }
        }
    }
}

// ---- laws of a run ------------------------------------------------------------

/// The renames of the completed depths depend on the groups and the temporary
/// paths alone.
pub proof fn lemma_completed_same(a: Run, b: Run, k: nat)
    requires
        a.groups == b.groups,
        k <= a.trace.temps.len(),
        k <= b.trace.temps.len(),
        forall|i: int| 0 <= i < k ==> a.trace.temps[i] == b.trace.temps[i],
    ensures
        a.completed(k) == b.completed(k),
    decreases k,
{
    if k > 0 {
        lemma_completed_same(a, b, (k - 1) as nat);
    }
}

/// What a taking back adds to the renames of a depth.
proof fn lemma_undo_step(done: Seq<Move>, forward: Seq<Move>, k: int)
    requires
        0 <= k < forward.len(),
    ensures
        (done + (forward + moves::undone(forward).take(k))).push(
            Move {
                from: forward[forward.len() - 1 - k].to,
                to: forward[forward.len() - 1 - k].from,
            },
        ) == done + (forward + moves::undone(forward).take(k + 1)),
{
    let undo = moves::undone(forward);
    assert(undo.take(k + 1) == undo.take(k).push(undo[k]));
}

proof fn lemma_choosing_consistent(run: Run, attempt: nat)
    requires
        run.consistent(),
        run.phase is Choosing || run.phase is Parking,
        attempt <= MAX_RETRIES,
    ensures
        run.choosing(attempt).consistent(),
{
    let next = run.choosing(attempt);
    lemma_completed_same(run, next, run.at);
    assert(next.present() == run.present());
}

proof fn lemma_parked_consistent(run: Run)
    requires
        run.consistent(),
        run.phase is Parking,
    ensures
        run.after(Report::Renamed).consistent(),
{
    let next = run.after(Report::Renamed);
    let candidate = run.phase->Parking_candidate;
    let n = run.parked.len();
    let parked = run.parked.push(candidate);
    assert(next.parked == parked);
    assert(next.entries() == run.entries());
    lemma_completed_same(run, next, run.at);
    assert(moves::parks(run.entries(), parked, n + 1) == moves::parks(
        run.entries(),
        run.parked,
        n,
    ).push(Move { from: run.next_entry().old, to: candidate }));
    assert(moves::places(run.entries(), parked, 0) == Seq::<Move>::empty());
    assert(next.present() == moves::parks(run.entries(), parked, n + 1));
    assert(next.trace.moves == next.completed(next.at) + next.present());
    assert(next.counters_increase());
}

proof fn lemma_placed_consistent(run: Run)
    requires
        run.consistent(),
        run.phase is Placing,
    ensures
        run.after(Report::Renamed).consistent(),
{
    let next = run.after(Report::Renamed);
    let placed = run.phase->placed;
    let step = Move { from: run.parked[placed as int], to: run.entries()[placed as int].new };
    let one_more = moves::parked_and_placed(run.entries(), run.parked, placed + 1);
    assert(one_more == moves::parked_and_placed(run.entries(), run.parked, placed).push(step));
    lemma_completed_same(run, next, run.at);
    if placed + 1 < run.entries().len() {
        assert(next.trace.moves == next.completed(next.at) + next.present());
    } else {
        assert(next.trace.temps[run.at as int] == run.parked);
        if !run.trace.wrapped {
            lemma_parked_apart(run);
        }
        lemma_parked_are_temps(run);
        assert(next.completed(next.at) == run.completed(run.at) + one_more);
        assert(next.parked == Seq::<Seq<u8>>::empty());
        assert(next.present() == Seq::<Move>::empty());
        assert(next.trace.moves == next.completed(next.at) + next.present());
    }
    assert(next.counters_increase());
}

proof fn lemma_refused_consistent(run: Run, report: Report)
    requires
        run.consistent(),
        run.phase is Placing || run.phase is Parking,
        report is Refused,
    ensures
        run.after(report).consistent(),
{
    let next = run.after(report);
    if let Phase::Parking { attempt, candidate } = run.phase {
        if report->already_exists && attempt < MAX_RETRIES {
            lemma_choosing_consistent(run, attempt + 1);
        } else {
            lemma_completed_same(run, next, run.at);
        }
    } else {
        lemma_completed_same(run, next, run.at);
        assert(moves::undone(next.forward()).take(0) == Seq::<Move>::empty());
        assert(next.present() == run.present());
    }
}

proof fn lemma_undo_consistent(run: Run, report: Report)
    requires
        run.consistent(),
        run.phase is Unplacing || run.phase is Unparking,
        report is Renamed || report is Refused,
    ensures
        run.after(report).consistent(),
{
    let next = run.after(report);
    lemma_completed_same(run, next, run.at);
    let forward = run.forward();
    let n = run.entries().len();
    assert(next.forward() == forward);
    if let Phase::Unplacing { left, cause } = run.phase {
        let k = run.trace.reached - left;
        assert(forward[forward.len() - 1 - k] == Move {
            from: run.parked[left - 1],
            to: run.entries()[left - 1].new,
        });
        lemma_undo_step(run.completed(run.at), forward, k);
    } else if let Phase::Unparking { left, cause } = run.phase {
        let k = run.trace.reached + n - left;
        assert(forward[forward.len() - 1 - k] == Move {
            from: run.entries()[left - 1].old,
            to: run.parked[left - 1],
        });
        lemma_undo_step(run.completed(run.at), forward, k);
        assert(moves::undone(forward).take(forward.len() as int) == moves::undone(forward));
    }
    assert(next.counters_increase());
}

/// A run stays consistent, whatever is reported to it.
pub proof fn law_run_stays_consistent(run: Run, report: Report)
    requires
        run.consistent(),
    ensures
        run.after(report).consistent(),
        run.after(report).groups == run.groups,
        run.after(report).pid == run.pid,
{
    if run.expects(report) {
        match (run.phase, report) {
            (Phase::Choosing { attempt, candidate }, _) => {
                if report == Report::Probed(true) {
                    lemma_choosing_consistent(run, attempt);
                } else {
                    lemma_completed_same(run, run.after(report), run.at);
                    assert(run.after(report).present() == run.present());
                }
            },
            (Phase::Parking { .. }, Report::Renamed) => lemma_parked_consistent(run),
            (Phase::Placing { .. }, Report::Renamed) => lemma_placed_consistent(run),
            (Phase::Parking { .. }, _) => lemma_refused_consistent(run, report),
            (Phase::Placing { .. }, _) => lemma_refused_consistent(run, report),
            (Phase::Unplacing { .. }, _) => lemma_undo_consistent(run, report),
            (Phase::Unparking { .. }, _) => lemma_undo_consistent(run, report),
            (Phase::Finished(_), _) => {},
        }
    }
}

/// A run that ends well has moved every depth aside and into place, the
/// deepest first, and has done nothing else.
pub proof fn law_success_is_complete(run: Run)
    requires
        run.consistent(),
        run.phase == Phase::Finished(None),
    ensures
        run.trace.moves == run.completed(run.groups.len()),
{
    assert(run.completed(run.at) + run.present() == run.completed(run.at));
}

/// The digits that end a temporary path.
spec fn counter_digits(counter: nat) -> Seq<char> {
    text::zero_filled(text::decimal(counter), 8)
}

/// A temporary path ends with a hyphen and the digits of its counter.
proof fn lemma_temp_path_end(old: Seq<u8>, pid: nat, counter: nat) -> (head: Seq<u8>)
    ensures
        temp_path(old, pid, counter) == head + seq![45u8] + encode_utf8(counter_digits(counter)),
{
    let base = path::file_name(old)->0;
    let front = text::lossy(base) + ".ren-"@ + text::decimal(pid);
    let digits = counter_digits(counter);
    let name = encode_utf8(temp_name(base, pid, counter));
    text::lemma_encoding_concat(front + "-"@, digits);
    text::lemma_encoding_concat(front, "-"@);
    reveal_strlit("-");
    assert("-"@ =~= seq!['-']);
    is_ascii_chars_encode_utf8("-"@);
    assert(encode_utf8("-"@) =~= seq![45u8]);
    assert(name == encode_utf8(front) + seq![45u8] + encode_utf8(digits));
    let dir = match path::parent(old) {
        Some(dir) => dir,
        None => seq![path::DOT],
    };
    let whole = path::join(dir, name);
    let before = whole.take(whole.len() - name.len());
    assert(whole =~= before + name);
    assert(before + name =~= before + encode_utf8(front) + seq![45u8] + encode_utf8(digits));
    before + encode_utf8(front)
}

/// Temporary paths with different counters differ, whatever entries and
/// processes they are for.
pub proof fn law_counters_tell_apart(
    old1: Seq<u8>,
    pid1: nat,
    counter1: nat,
    old2: Seq<u8>,
    pid2: nat,
    counter2: nat,
)
    requires
        counter1 != counter2,
    ensures
        temp_path(old1, pid1, counter1) != temp_path(old2, pid2, counter2),
{
    let p1 = temp_path(old1, pid1, counter1);
    let p2 = temp_path(old2, pid2, counter2);
    if p1 == p2 {
        let d1 = counter_digits(counter1);
        let d2 = counter_digits(counter2);
        let head1 = lemma_temp_path_end(old1, pid1, counter1);
        let head2 = lemma_temp_path_end(old2, pid2, counter2);
        text::law_decimal_reads_back(counter1);
        text::law_decimal_reads_back(counter2);
        text::law_zeros_change_nothing(text::decimal(counter1), 8);
        text::law_zeros_change_nothing(text::decimal(counter2), 8);
        is_ascii_chars_encode_utf8(d1);
        is_ascii_chars_encode_utf8(d2);
        let b1 = encode_utf8(d1);
        let b2 = encode_utf8(d2);
        assert forall|i: int| 0 <= i < b1.len() implies b1[i] != 45 by {
            assert(text::is_digit(d1[i]));
        }
        assert forall|i: int| 0 <= i < b2.len() implies b2[i] != 45 by {
            assert(text::is_digit(d2[i]));
        }
        if b1.len() < b2.len() {
            assert(p1[p1.len() - 1 - b1.len()] == 45);
            assert(p2[p1.len() - 1 - b1.len()] == b2[b2.len() - 1 - b1.len()]);
        } else if b2.len() < b1.len() {
            assert(p2[p2.len() - 1 - b2.len()] == 45);
            assert(p1[p2.len() - 1 - b2.len()] == b1[b1.len() - 1 - b2.len()]);
        }
        assert forall|i: int| 0 <= i < d1.len() implies d1[i] == d2[i] by {
            assert(text::is_digit(d1[i]) && text::is_digit(d2[i]));
            assert(p1[p1.len() - b1.len() + i] == b1[i]);
            assert(p2[p2.len() - b2.len() + i] == b2[i]);
        }
        assert(d1 =~= d2);
    }
}

/// A temporary name is a name, and longer than that of the entry.
proof fn lemma_temp_name_is_plain(old: Seq<u8>, pid: nat, counter: nat)
    requires
        names::name_text(old) is Some,
    ensures
        ({
            let base = path::file_name(old)->0;
            let name = encode_utf8(temp_name(base, pid, counter));
            path::is_plain_name(name) && name.len() > base.len()
        }),
{
    let base = path::file_name(old)->0;
    path::law_file_name_is_plain(old);
    decode_utf8_encode_utf8(base);
    let number = text::decimal(pid);
    let digits = counter_digits(counter);
    text::law_decimal_reads_back(pid);
    text::law_decimal_reads_back(counter);
    text::law_zeros_change_nothing(text::decimal(counter), 8);
    reveal_strlit(".ren-");
    reveal_strlit("-");
    let rest = ".ren-"@ + number + "-"@ + digits;
    assert forall|i: int| 0 <= i < rest.len() implies '\0' <= #[trigger] rest[i] <= '\u{7f}'
        && rest[i] != '/' by {
        if i >= 5 && i < 5 + number.len() {
            assert(rest[i] == number[i - 5]);
            assert(text::is_digit(number[i - 5]));
        } else if i >= 6 + number.len() {
            assert(rest[i] == digits[i - 6 - number.len()]);
            assert(text::is_digit(digits[i - 6 - number.len()]));
        }
    }
    is_ascii_chars_encode_utf8(rest);
    let shown = text::lossy(base);
    text::lemma_encoding_concat(shown, rest);
    assert(shown + rest == temp_name(base, pid, counter));
    let name = encode_utf8(temp_name(base, pid, counter));
    let tail = encode_utf8(rest);
    assert(name == base + tail);
    if name.contains(path::SEPARATOR) {
        let i = choose|i: int| 0 <= i < name.len() && name[i] == path::SEPARATOR;
        if i < base.len() {
            assert(base.contains(base[i]));
        } else {
            assert(tail[i - base.len()] == rest[i - base.len()] as u8);
        }
    }
    assert(path::is_plain_name(name));
}

/// A temporary path is in the directory of its entry, under another name.
pub proof fn law_temporary_path_is_beside(old: Seq<u8>, pid: nat, temp: Seq<u8>)
    requires
        is_temp(old, pid, temp),
        names::name_text(old) is Some,
    ensures
        rename::place(temp) == rename::place(old),
        path::components(temp).len() == path::components(old).len() > 0,
        path::components(temp).drop_last() == path::components(old).drop_last(),
        path::components(temp) != path::components(old),
{
    let counter = choose|counter: nat| temp == #[trigger] temp_path(old, pid, counter);
    let base = path::file_name(old)->0;
    path::law_directory_and_name(old);
    lemma_temp_name_is_plain(old, pid, counter);
    let name = encode_utf8(temp_name(base, pid, counter));
    path::law_join_stays_in_directory(path::directory(old), name);
    assert(path::components(temp).last() == name);
    assert(path::components(old).last() == base);
}

/// The temporary paths of a depth, of the present one as of those that are done,
/// differ from one another, as long as the counter has not run over.
pub proof fn law_temporary_paths_differ(run: Run)
    requires
        run.consistent(),
        !run.trace.wrapped,
    ensures
        run.parked.no_duplicates(),
        forall|k: int|
            0 <= k < run.at ==> (#[trigger] run.trace.temps[k]).no_duplicates(),
{
    lemma_parked_apart(run);
}

/// The paths that entries of the present depth are at by now are temporary ones.
pub proof fn lemma_parked_are_temps(run: Run)
    requires
        run.consistent(),
    ensures
        are_temps(run.entries(), run.parked, run.pid),
{
    assert forall|i: int| 0 <= i < run.parked.len() implies is_temp(
        run.entries()[i].old,
        run.pid,
        #[trigger] run.parked[i],
    ) by {
        assert(run.parked[i] == temp_path(run.entries()[i].old, run.pid, run.trace.used[i]));
    }
}

proof fn lemma_parked_apart(run: Run)
    requires
        run.counters_increase(),
        !run.trace.wrapped,
    ensures
        run.parked.no_duplicates(),
{
    assert forall|i: int, j: int|
        0 <= i < run.parked.len() && 0 <= j < run.parked.len() && i
            != j implies run.parked[i] != run.parked[j] by {
        law_counters_tell_apart(
            run.entries()[i].old,
            run.pid,
            run.trace.used[i],
            run.entries()[j].old,
            run.pid,
            run.trace.used[j],
        );
    }
}

// ---- executable -----------------------------------------------------------------

/// A run that has yet to do anything.
pub open spec fn starting(groups: Seq<Group>, pid: nat, counter: nat) -> Run {
    Run {
        groups,
        at: 0,
        parked: Seq::empty(),
        phase: Phase::Finished(None),
        pid,
        counter,
        trace: Trace {
            moves: Seq::empty(),
            temps: Seq::empty(),
            used: Seq::empty(),
            last: 0,
            reached: 0,
            intact: true,
            wrapped: false,
        },
    }.starting_group()
}

proof fn lemma_starting_consistent(plan: Seq<Planned>, groups: Seq<Group>, pid: nat, counter: nat)
    requires
        are_depth_groups(plan, groups),
        forall|k: int| 0 <= k < plan.len() ==> path::file_name((#[trigger] plan[k]).old) is Some,
        counter <= u64::MAX,
    ensures
        starting(groups, pid, counter).consistent(),
{
    let run = starting(groups, pid, counter);
    assert forall|i: int, k: int|
        0 <= i < groups.len() && 0 <= k < groups[i].entries.len() implies path::file_name(
        (#[trigger] groups[i].entries[k]).old,
    ) is Some by {
        let wanted = |e: Planned| e.depth == groups[i].depth;
        let e = groups[i].entries[k];
        assert(plan.filter(wanted) == groups[i].entries);
        assert(groups[i].entries.contains(e));
        plan.lemma_filter_contains_rev(wanted, e);
        let j = choose|j: int| 0 <= j < plan.len() && plan[j] == e;
        assert(path::file_name(plan[j].old) is Some);
    }
    assert(run.present() == Seq::<Move>::empty());
    assert(run.completed(0) == Seq::<Move>::empty());
    assert(run.trace.moves == run.completed(run.at) + run.present());
}

/// The text that tells of a taking back that was refused.
pub open spec fn rollback_warning(m: Move, cause: Seq<char>) -> Seq<char> {
    "warning: rollback failed: "@ + text::lossy(m.from) + " -> "@ + text::lossy(m.to) + ": "@
        + cause
}

fn make_rollback_warning(from: &PathName, to: &PathName, cause: &str) -> (warning: String)
    ensures
        warning@ == rollback_warning(Move { from: from@, to: to@ }, cause@),
{
    let mut warning = String::new();
    warning.push_str("warning: rollback failed: ");
    let shown = from.to_text_lossy();
    warning.push_str(shown.as_str());
    warning.push_str(" -> ");
    let shown = to.to_text_lossy();
    warning.push_str(shown.as_str());
    warning.push_str(": ");
    warning.push_str(cause);
    warning
}

/// The text that tells of a failure, without its cause.
pub open spec fn failure_message(fault: Fault) -> Seq<char> {
    match fault {
        Fault::Parking { depth, from, to, cause } => "phase 1 rename failed at depth "@
            + text::decimal(depth) + ": "@ + text::lossy(from) + " -> "@ + text::lossy(to),
        Fault::Placing { depth, cause } => "apply_plan failed at depth "@ + text::decimal(depth)
            + "; depths > "@ + text::decimal(depth)
            + " have already been applied and were not rolled back"@,
    }
}

impl Failure {
    /// The text that tells of the failure, without its cause.
    pub fn message(&self) -> (message: String)
        ensures
            message@ == failure_message(self@),
    {
        let mut message = String::new();
        match self {
            Failure::Parking { depth, from, to, cause } => {
                message.push_str("phase 1 rename failed at depth ");
                let number = text::decimal_string(*depth as u64);
                message.push_str(number.as_str());
                message.push_str(": ");
                let shown = from.to_text_lossy();
                message.push_str(shown.as_str());
                message.push_str(" -> ");
                let shown = to.to_text_lossy();
                message.push_str(shown.as_str());
            },
            Failure::Placing { depth, cause } => {
                message.push_str("apply_plan failed at depth ");
                let number = text::decimal_string(*depth as u64);
                message.push_str(number.as_str());
                message.push_str("; depths > ");
                message.push_str(number.as_str());
                message.push_str(" have already been applied and were not rolled back");
            },
        }
        message
    }

    /// What caused the failure.
    pub fn cause(&self) -> (cause: String)
        ensures
            cause@ == (match self@ {
                Fault::Parking { cause, .. } => cause,
                Fault::Placing { cause, .. } => cause,
            }),
    {
        match self {
            Failure::Parking { depth, from, to, cause } => cause.clone(),
            Failure::Placing { depth, cause } => cause.clone(),
        }
    }
}

impl Applier {
    /// A run that has yet to do anything. `pid` and `counter` go into the names
    /// of the temporary paths.
    pub fn new(plan: &Vec<PlanEntry>, pid: u32, counter: u64) -> (run: Applier)
        requires
            forall|k: int|
                0 <= k < plan@.len() ==> path::file_name((#[trigger] plan@[k]).old@) is Some,
        ensures
            run@.consistent(),
            are_depth_groups(rename::planned(plan@), run@.groups),
            run@ == starting(run@.groups, pid as nat, counter as nat),
    {
        let groups = group_by_depth(plan);
        let ghost all = grouped(groups@);
        let mut run = Applier {
            groups,
            at: 0,
            parked: Vec::new(),
            stage: Stage::Finished { failure: None },
            pid,
            counter,
            trace: Ghost(
                Trace {
                    moves: Seq::empty(),
                    temps: Seq::empty(),
                    used: Seq::empty(),
                    last: 0,
                    reached: 0,
                    intact: true,
                    wrapped: false,
                },
            ),
        };
        proof {
            let entries = rename::planned(plan@);
            assert forall|k: int| 0 <= k < entries.len() implies path::file_name(
                (#[trigger] entries[k]).old,
            ) is Some by {
                assert(path::file_name(plan@[k].old@) is Some);
            }
            lemma_starting_consistent(entries, all, pid as nat, counter as nat);
            assert(paths(run.parked@) == Seq::<Seq<u8>>::empty());
        }
        run.start_group();
        run
    }

    /// Looks at the next temporary path for the next entry.
    fn choose_path(&mut self, attempt: usize)
        requires
            old(self)@.at < old(self)@.groups.len(),
            old(self)@.parked.len() < old(self)@.entries().len(),
            path::file_name(old(self)@.next_entry().old) is Some,
        ensures
            final(self)@ == old(self)@.choosing(attempt as nat),
    {
        let ghost before = self@;
        let old_path = &self.groups[self.at].entries[self.parked.len()].old;
        let candidate = make_temp_path(old_path, self.pid, self.counter);
        self.stage = Stage::Choosing { attempt, candidate };
        self.trace = Ghost(
            Trace {
                last: before.counter,
                wrapped: before.trace.wrapped || before.counter >= u64::MAX,
                ..before.trace
            },
        );
        self.counter = self.counter.wrapping_add(1);
    }

    /// Goes on to the depth at `at`, or ends if there is none.
    fn start_group(&mut self)
        requires
            old(self)@.at <= old(self)@.groups.len(),
            old(self)@.at < old(self)@.groups.len() ==> {
                &&& old(self)@.parked.len() < old(self)@.entries().len()
                &&& path::file_name(old(self)@.next_entry().old) is Some
            },
        ensures
            final(self)@ == old(self)@.starting_group(),
    {
        if self.at < self.groups.len() {
            self.choose_path(0);
        } else {
            self.stage = Stage::Finished { failure: None };
        }
    }

    /// What to do next.
    pub fn action(&self) -> (action: Action)
        requires
            self@.consistent(),
        ensures
            match action {
                Action::Probe { path } => self@.phase is Choosing && path@
                    == self@.phase->Choosing_candidate,
                Action::Rename { from, to } => self@.due() == Some(
                    Move { from: from@, to: to@ },
                ),
                Action::Succeed => self@.phase == Phase::Finished(None),
                Action::Fail => self@.phase matches Phase::Finished(Some(_)),
            },
    {
        match &self.stage {
            Stage::Choosing { attempt, candidate } => Action::Probe { path: candidate.copy() },
            Stage::Parking { attempt, candidate } => Action::Rename {
                from: self.groups[self.at].entries[self.parked.len()].old.copy(),
                to: candidate.copy(),
            },
            Stage::Placing { placed } => Action::Rename {
                from: self.parked[*placed].copy(),
                to: self.groups[self.at].entries[*placed].new.copy(),
            },
            Stage::Unplacing { left, cause } => Action::Rename {
                from: self.groups[self.at].entries[*left - 1].new.copy(),
                to: self.parked[*left - 1].copy(),
            },
            Stage::Unparking { left, cause } => Action::Rename {
                from: self.parked[*left - 1].copy(),
                to: self.groups[self.at].entries[*left - 1].old.copy(),
            },
            Stage::Finished { failure } => match failure {
                Some(_) => Action::Fail,
                None => Action::Succeed,
            },
        }
    }

    /// Why the run failed, once it has.
    pub fn failure(&self) -> (failure: Option<&Failure>)
        ensures
            failure matches Some(f) ==> self@.phase == Phase::Finished(Some(f@)),
            failure is None ==> !(self@.phase matches Phase::Finished(Some(_))),
    {
        match &self.stage {
            Stage::Finished { failure: Some(f) } => Some(f),
            _ => None,
        }
    }

    fn note_probe(&mut self, occupied: bool)
        requires
            old(self)@.consistent(),
        ensures
            final(self)@ == old(self)@.after(Report::Probed(occupied)),
    {
        let (attempt, candidate) = match &self.stage {
            Stage::Choosing { attempt, candidate } => (*attempt, candidate.copy()),
            _ => {
                return;
            },
        };
        if occupied {
            self.choose_path(attempt);
        } else {
            self.stage = Stage::Parking { attempt, candidate };
        }
    }

    fn note_parked(&mut self)
        requires
            old(self)@.consistent(),
            old(self)@.phase is Parking,
        ensures
            final(self)@ == old(self)@.after(Report::Renamed),
    {
        let ghost before = self@;
        let candidate = match &self.stage {
            Stage::Parking { attempt, candidate } => candidate.copy(),
            _ => PathName { bytes: Vec::new() },
        };
        let ghost moved = before.with_move(before.next_entry().old, candidate@);
        self.trace = Ghost(
            Trace { used: before.trace.used.push(before.trace.last), ..moved.trace },
        );
        let ghost old_parked = self.parked@;
        self.parked.push(candidate);
        assert(paths(self.parked@) == paths(old_parked).push(candidate@));
        if self.parked.len() < self.groups[self.at].entries.len() {
            assert(path::file_name(
                before.groups[before.at as int].entries[(before.parked.len() + 1) as int].old,
            ) is Some);
            self.choose_path(0);
        } else {
            self.stage = Stage::Placing { placed: 0 };
        }
    }

    fn note_placed(&mut self)
        requires
            old(self)@.consistent(),
            old(self)@.phase is Placing,
        ensures
            final(self)@ == old(self)@.after(Report::Renamed),
    {
        let ghost before = self@;
        let placed: usize = match &self.stage {
            Stage::Placing { placed } => *placed,
            _ => 0,
        };
        let ghost moved = before.with_move(
            before.parked[placed as int],
            before.entries()[placed as int].new,
        );
        let depths: usize = self.groups.len();
        let all: usize = self.groups[self.at].entries.len();
        assert(before.groups.len() == depths && before.entries().len() == all);
        if placed + 1 < all {
            self.trace = Ghost(moved.trace);
            self.stage = Stage::Placing { placed: placed + 1 };
        } else {
            self.trace = Ghost(
                Trace {
                    temps: before.trace.temps.push(before.parked),
                    used: Seq::empty(),
                    ..moved.trace
                },
            );
            self.at = self.at + 1;
            self.parked = Vec::new();
            proof {
                assert(paths(self.parked@) == Seq::<Seq<u8>>::empty());
                if self@.at < self@.groups.len() {
                    assert(before.groups[self@.at as int].entries.len() > 0);
                    assert(path::file_name(before.groups[self@.at as int].entries[0].old) is Some);
                }
            }
            self.start_group();
        }
    }

    /// Notes what came of taking back one rename.
    fn note_undo(&mut self, Ghost(report): Ghost<Report>)
        requires
            old(self)@.consistent(),
            old(self)@.phase is Unplacing || old(self)@.phase is Unparking,
            report is Renamed || report is Refused,
        ensures
            final(self)@ == old(self)@.after(report),
    {
        let ghost before = self@;
        let all: usize = self.groups[self.at].entries.len();
        let depth: usize = self.groups[self.at].depth;
        let next = match &self.stage {
            Stage::Unplacing { left, cause } => if *left > 1 {
                Stage::Unplacing { left: *left - 1, cause: cause.clone() }
            } else {
                Stage::Unparking { left: all, cause: cause.clone() }
            },
            Stage::Unparking { left, cause } => if *left > 1 {
                Stage::Unparking { left: *left - 1, cause: cause.clone() }
            } else {
                Stage::Finished {
                    failure: Some(Failure::Placing { depth, cause: cause.clone() }),
                }
            },
            _ => Stage::Finished { failure: None },
        };
        self.stage = next;
        self.trace = Ghost(
            before.after_undo(before.due()->0.from, before.due()->0.to, report).trace,
        );
    }

    fn note_refusal(&mut self, already_exists: bool, cause: String) -> (warning: Option<String>)
        requires
            old(self)@.consistent(),
        ensures
            final(self)@ == old(self)@.after(Report::Refused { already_exists, cause: cause@ }),
            warning is Some <==> (old(self)@.phase is Unplacing || old(self)@.phase is Unparking),
            warning matches Some(w) ==> w@ == rollback_warning(old(self)@.due()->0, cause@),
    {
        let ghost before = self@;
        let action = self.action();
        let (from, to) = match action {
            Action::Rename { from, to } => (from, to),
            _ => {
                return None;
            },
        };
        let all: usize = self.groups[self.at].entries.len();
        let depth: usize = self.groups[self.at].depth;
        let attempt: usize = match &self.stage {
            Stage::Parking { attempt, candidate } => *attempt,
            Stage::Placing { placed } => {
                let placed: usize = *placed;
                self.stage = if placed > 0 {
                    Stage::Unplacing { left: placed, cause }
                } else {
                    Stage::Unparking { left: all, cause }
                };
                self.trace = Ghost(Trace { reached: placed as nat, ..before.trace });
                return None;
            },
            _ => {
                let warning = make_rollback_warning(&from, &to, cause.as_str());
                self.note_undo(Ghost(Report::Refused { already_exists, cause: cause@ }));
                return Some(warning);
            },
        };
        if already_exists && attempt < MAX_RETRIES {
            self.choose_path(attempt + 1);
        } else {
            self.stage = Stage::Finished {
                failure: Some(Failure::Parking { depth, from, to, cause }),
            };
        }
        None
    }

    /// Takes in what came of the action that was due, and moves on. A report
    /// that was not asked for is passed over. The text is a warning to show.
    pub fn advance(&mut self, event: Event) -> (warning: Option<String>)
        requires
            old(self)@.consistent(),
        ensures
            final(self)@ == old(self)@.after(event@),
            final(self)@.consistent(),
            warning is Some <==> event@ is Refused && (old(self)@.phase is Unplacing || old(
                self,
            )@.phase is Unparking),
            warning matches Some(w) ==> w@ == rollback_warning(
                old(self)@.due()->0,
                event@->cause,
            ),
    {
        proof {
            law_run_stays_consistent(self@, event@);
        }
        match event {
            Event::Probed { occupied } => {
                self.note_probe(occupied);
                None
            },
            Event::Renamed => {
                match &self.stage {
                    Stage::Parking { .. } => {
                        self.note_parked();
                    },
                    Stage::Placing { .. } => {
                        self.note_placed();
                    },
                    Stage::Unplacing { .. } => {
                        self.note_undo(Ghost(Report::Renamed));
                    },
                    Stage::Unparking { .. } => {
                        self.note_undo(Ghost(Report::Renamed));
                    },
                    _ => {},
                }
                None
            },
            Event::Refused { already_exists, cause } => self.note_refusal(already_exists, cause),
        }
    }
}

// ---- laws on single steps -----------------------------------------------------------

/// A temporary path that turns out to be occupied is passed over, and the next one is
/// looked at, however often that happens; one that is free is the one that the entry
/// is moved to. Neither renames anything.
pub proof fn law_occupied_paths_are_passed_over(run: Run)
    requires
        run.phase is Choosing,
    ensures
        ({
            let next = run.after(Report::Probed(true));
            let free = run.after(Report::Probed(false));
            &&& next.phase is Choosing
            &&& next.phase->Choosing_attempt == run.phase->Choosing_attempt
            &&& next.phase->Choosing_candidate == temp_path(
                run.entries()[run.parked.len() as int].old,
                run.pid,
                run.counter,
            )
            &&& run.counter < u64::MAX ==> next.counter == run.counter + 1
            &&& next.trace.moves == run.trace.moves && next.parked == run.parked && next.at
                == run.at
            &&& free.phase is Parking
            &&& free.due() == Some(
                Move {
                    from: run.entries()[run.parked.len() as int].old,
                    to: run.phase->Choosing_candidate,
                },
            )
            &&& free.trace.moves == run.trace.moves && free.parked == run.parked && free.at
                == run.at
        }),
{
}

/// If an entry cannot be moved aside because its temporary path has just been taken,
/// another is tried, up to sixteen times. After that, or for any other cause, the run
/// has failed, and tells which entry it was.
pub proof fn law_sixteen_more_paths_are_tried(run: Run, cause: Seq<char>)
    requires
        run.phase is Parking,
    ensures
        ({
            let attempt = run.phase->Parking_attempt;
            let taken = run.after(Report::Refused { already_exists: true, cause });
            let refused = run.after(Report::Refused { already_exists: false, cause });
            let failed = Phase::Finished(
                Some(
                    Fault::Parking {
                        depth: run.groups[run.at as int].depth,
                        from: run.entries()[run.parked.len() as int].old,
                        to: run.phase->Parking_candidate,
                        cause,
                    },
                ),
            );
            &&& attempt < 16 ==> taken.phase is Choosing && taken.phase->Choosing_attempt == attempt
                + 1 && taken.phase->Choosing_candidate == temp_path(
                run.entries()[run.parked.len() as int].old,
                run.pid,
                run.counter,
            )
            &&& attempt >= 16 ==> taken.phase == failed
            &&& refused.phase == failed
            &&& taken.trace.moves == run.trace.moves && refused.trace.moves == run.trace.moves
            &&& taken.parked == run.parked && refused.parked == run.parked
        }),
{
}

/// If an entry cannot be put into place, those of its depth that are in place are
/// taken back first, the last first, and then those that are aside, the last first. A
/// taking back that is refused does not stop the others, and the run has failed for
/// the first cause.
pub proof fn law_a_failed_depth_is_taken_back(run: Run, report: Report)
    requires
        report is Renamed || report is Refused,
    ensures
        run.phase matches Phase::Placing { placed } ==> (report matches Report::Refused {
            already_exists,
            cause,
        } ==> run.after(report).phase == if placed > 0 {
            Phase::Unplacing { left: placed, cause }
        } else {
            Phase::Unparking { left: run.entries().len(), cause }
        }),
        run.phase matches Phase::Unplacing { left, cause } ==> {
            &&& run.due() == Some(
                Move { from: run.entries()[left - 1].new, to: run.parked[left - 1] },
            )
            &&& left > 1 ==> run.after(report).phase == (Phase::Unplacing {
                left: (left - 1) as nat,
                cause,
            })
            &&& left <= 1 ==> run.after(report).phase == (Phase::Unparking {
                left: run.entries().len(),
                cause,
            })
        },
        run.phase matches Phase::Unparking { left, cause } ==> {
            &&& run.due() == Some(
                Move { from: run.parked[left - 1], to: run.entries()[left - 1].old },
            )
            &&& left > 1 ==> run.after(report).phase == (Phase::Unparking {
                left: (left - 1) as nat,
                cause,
            })
            &&& left <= 1 ==> run.after(report).phase == Phase::Finished(
                Some(Fault::Placing { depth: run.groups[run.at as int].depth, cause }),
            )
        },
{
}

/// Entries are moved aside in the order of their depth, and put into place in that
/// order, each from where it is aside to its own target; a depth is begun when the one
/// before it is done.
pub proof fn law_entries_are_taken_in_order(run: Run)
    requires
        run.consistent(),
    ensures
        run.phase is Parking ==> {
            let next = run.after(Report::Renamed);
            &&& next.parked == run.parked.push(run.phase->Parking_candidate)
            &&& next.at == run.at
            &&& next.parked.len() < run.entries().len() ==> next.phase is Choosing
                && next.phase->Choosing_attempt == 0
            &&& next.parked.len() == run.entries().len() ==> next.phase == (Phase::Placing {
                placed: 0,
            })
        },
        run.phase matches Phase::Placing { placed } ==> {
            let next = run.after(Report::Renamed);
            &&& run.due() == Some(
                Move { from: run.parked[placed as int], to: run.entries()[placed as int].new },
            )
            &&& placed + 1 < run.entries().len() ==> next.phase == (Phase::Placing {
                placed: placed + 1,
            }) && next.at == run.at
            &&& placed + 1 == run.entries().len() ==> next.at == run.at + 1 && next.parked.len()
                == 0
            &&& placed + 1 == run.entries().len() && run.at + 1 < run.groups.len()
                ==> next.phase is Choosing
            &&& placed + 1 == run.entries().len() && run.at + 1 == run.groups.len() ==> next.phase
                == Phase::Finished(None)
        },
{
}

/// A failure tells the depth, and the paths if an entry could not be moved aside. A
/// taking back that failed tells its paths and why.
pub proof fn law_failures_are_told(depth: nat, from: Seq<u8>, to: Seq<u8>, cause: Seq<char>)
    ensures
        failure_message(Fault::Parking { depth, from, to, cause })
            == "phase 1 rename failed at depth "@ + text::decimal(depth) + ": "@ + text::lossy(from)
            + " -> "@ + text::lossy(to),
        failure_message(Fault::Placing { depth, cause }) == "apply_plan failed at depth "@
            + text::decimal(depth) + "; depths > "@ + text::decimal(depth)
            + " have already been applied and were not rolled back"@,
        rollback_warning(Move { from, to }, cause) == "warning: rollback failed: "@ + text::lossy(
            from,
        ) + " -> "@ + text::lossy(to) + ": "@ + cause,
{
}

/// A temporary name is the name of the entry, then `.ren-`, the process and a hyphen,
/// and then a counter of at least eight digits.
pub proof fn law_temporary_names_tell_where_from(old: Seq<u8>, pid: nat, counter: nat)
    requires
        names::name_text(old) is Some,
    ensures
        path::file_name(temp_path(old, pid, counter)) == Some(
            encode_utf8(
                names::name_text(old)->0 + ".ren-"@ + text::decimal(pid) + "-"@
                    + text::zero_filled(text::decimal(counter), 8),
            ),
        ),
{
    let temp = temp_path(old, pid, counter);
    let base = path::file_name(old)->0;
    assert(is_temp(old, pid, temp));
    law_temporary_path_is_beside(old, pid, temp);
    path::law_directory_and_name(old);
    lemma_temp_name_is_plain(old, pid, counter);
    let name = encode_utf8(temp_name(base, pid, counter));
    path::law_join_stays_in_directory(path::directory(old), name);
}

/// A report that answers nothing changes nothing: whether a path is occupied is asked
/// while one is being looked for, a rename is reported when one is due, and a run that
/// is over stays as it is.
pub proof fn law_unasked_reports_change_nothing(run: Run, occupied: bool, report: Report)
    ensures
        !(run.phase is Choosing) ==> run.after(Report::Probed(occupied)) == run,
        run.phase is Choosing && !(report is Probed) ==> run.after(report) == run,
        run.phase is Finished ==> run.after(report) == run,
{
}

/// A run begins with the deepest entries, at the first of them and with the counter
/// that it was given. Without entries it is over at once.
pub proof fn law_runs_begin_with_the_deepest(groups: Seq<Group>, pid: nat, counter: nat)
    ensures
        groups.len() == 0 ==> starting(groups, pid, counter).phase == Phase::Finished(None),
        groups.len() > 0 ==> starting(groups, pid, counter).phase == (Phase::Choosing {
            attempt: 0,
            candidate: temp_path(groups[0].entries[0].old, pid, counter),
        }),
        starting(groups, pid, counter).groups == groups,
        starting(groups, pid, counter).at == 0,
        starting(groups, pid, counter).trace.moves.len() == 0,
{
}

} // verus!
