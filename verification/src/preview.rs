//! The preview: the entries of a plan are shown one by one, and the user decides
//! on each.

use vstd::prelude::*;
use vstd::utf8::*;
use crate::path;
use crate::path::PathName;
use crate::rename;
use crate::rename::{PlanEntry, Planned};
use crate::text;

verus! {

// ---- decisions -------------------------------------------------------------------

/// What becomes of decisions after an action, and which entry is at hand then.
pub open spec fn decided(decisions: Seq<(usize, bool)>, idx: usize, action: char) -> (
    Seq<(usize, bool)>,
    usize,
) {
    if action == 'y' || action == 'A' {
        (decisions.push((idx, true)), idx)
    } else if action == 'n' || action == '>' {
        (decisions.push((idx, false)), idx)
    } else if action == '<' {
        if decisions.len() == 0 {
            (decisions, 0)
        } else {
            (
                decisions.drop_last(),
                if idx > 0 {
                    (idx - 1) as usize
                } else {
                    0
                },
            )
        }
    } else {
        (decisions, idx)
    }
}

/// Records an action on the entry at `idx`:
///
/// - `y` and `A` accept it;
/// - `n` and `>` reject it;
/// - `<` takes back the last decision, if there is one, and goes to the entry
///   before.
///
/// Returns which entry is at hand then.
pub fn decide(decisions: &mut Vec<(usize, bool)>, idx: usize, action: char) -> (next: usize)
    ensures
        (final(decisions)@, next) == decided(old(decisions)@, idx, action),
{
    if action == 'y' || action == 'A' {
        decisions.push((idx, true));
        idx
    } else if action == 'n' || action == '>' {
        decisions.push((idx, false));
        idx
    } else if action == '<' {
        if decisions.pop().is_some() {
            if idx > 0 {
                idx - 1
            } else {
                0
            }
        } else {
            0
        }
    } else {
        idx
    }
}

/// What the user chooses to do about an entry.
#[derive(Clone, Copy, Debug, PartialEq, Eq, Structural)]
pub enum Choice {
    /// Accept it.
    Accept,
    /// Reject it.
    Reject,
    /// Accept it and all that follow.
    AcceptAll,
    /// Ask no more, and keep what has been accepted.
    Quit,
    /// Go back and decide on the entry before again.
    Back,
    /// Go on without it.
    Skip,
}

/// How far the user has got.
pub struct Session {
    /// How many entries there are.
    pub total: nat,
    /// What has been decided about the first entries.
    pub verdicts: Seq<bool>,
    /// Whether the user wants to be asked no more.
    pub stopped: bool,
}

impl Session {
    /// Whether there is nothing to ask about.
    pub open spec fn finished(self) -> bool {
        self.stopped || self.verdicts.len() >= self.total
    }

    /// How far the user has got after a choice.
    pub open spec fn after(self, choice: Choice) -> Session {
        if self.finished() {
            self
        } else {
            match choice {
                Choice::Accept => Session { verdicts: self.verdicts.push(true), ..self },
                Choice::Reject => Session { verdicts: self.verdicts.push(false), ..self },
                Choice::Skip => Session { verdicts: self.verdicts.push(false), ..self },
                Choice::AcceptAll => Session {
                    verdicts: self.verdicts + Seq::new(
                        (self.total - self.verdicts.len()) as nat,
                        |i: int| true,
                    ),
                    ..self
                },
                Choice::Quit => Session { stopped: true, ..self },
                Choice::Back => if self.verdicts.len() == 0 {
                    self
                } else {
                    Session { verdicts: self.verdicts.drop_last(), ..self }
                },
            }
        }
    }
}

/// The entries that have been accepted, in the order of the plan.
pub open spec fn accepted<T>(plan: Seq<T>, verdicts: Seq<bool>) -> Seq<T>
    decreases plan.len(),
{
    if plan.len() == 0 {
        Seq::empty()
    } else {
        let before = accepted(plan.drop_last(), verdicts);
        let i = plan.len() - 1;
        if i < verdicts.len() && verdicts[i] {
            before.push(plan.last())
        } else {
            before
        }
    }
}

/// A walk through a plan, on which the user is asked about its entries.
pub struct PreviewPatcher {
    total: usize,
    decisions: Vec<(usize, bool)>,
    stopped: bool,
}

impl View for PreviewPatcher {
    type V = Session;

    closed spec fn view(&self) -> Session {
        Session {
            total: self.total as nat,
            verdicts: self.decisions@.map_values(|d: (usize, bool)| d.1),
            stopped: self.stopped,
        }
    }
}

impl PreviewPatcher {
    #[verifier::type_invariant]
    spec fn in_step(self) -> bool {
        &&& self.decisions@.len() <= self.total
        &&& forall|i: int| 0 <= i < self.decisions@.len() ==> (#[trigger] self.decisions@[i]).0 == i
    }

    /// A walk through a plan of `total` entries.
    pub fn new(total: usize) -> (patcher: PreviewPatcher)
        ensures
            patcher@.total == total,
            patcher@.verdicts == Seq::<bool>::empty(),
            !patcher@.stopped,
    {
        PreviewPatcher { total, decisions: Vec::new(), stopped: false }
    }

    /// Which entry the user is to be asked about.
    pub fn asks(&self) -> (idx: Option<usize>)
        ensures
            idx is None <==> self@.finished(),
            idx matches Some(i) ==> i == self@.verdicts.len() < self@.total,
    {
        proof {
            use_type_invariant(self);
        }
        if self.stopped || self.decisions.len() >= self.total {
            None
        } else {
            Some(self.decisions.len())
        }
    }

    /// Takes the user's choice on the entry that was asked about.
    pub fn answer(self, choice: Choice) -> (patcher: PreviewPatcher)
        ensures
            patcher@ == self@.after(choice),
    {
        proof {
            use_type_invariant(&self);
        }
        let PreviewPatcher { total, decisions, stopped } = self;
        let mut decisions = decisions;
        let ghost before = decisions@;
        let ghost verdicts = before.map_values(|d: (usize, bool)| d.1);
        if stopped || decisions.len() >= total {
            return PreviewPatcher { total, decisions, stopped };
        }
        let idx: usize = decisions.len();
        match choice {
            Choice::Accept => {
                decide(&mut decisions, idx, 'y');
                assert(decisions@.map_values(|d: (usize, bool)| d.1) == verdicts.push(true));
            },
            Choice::Reject => {
                decide(&mut decisions, idx, 'n');
                assert(decisions@.map_values(|d: (usize, bool)| d.1) == verdicts.push(false));
            },
            Choice::Skip => {
                decide(&mut decisions, idx, '>');
                assert(decisions@.map_values(|d: (usize, bool)| d.1) == verdicts.push(false));
            },
            Choice::AcceptAll => {
                for i in idx..total
                    invariant
                        idx <= total,
                        idx == before.len(),
                        verdicts == before.map_values(|d: (usize, bool)| d.1),
                        decisions@.len() == i,
                        forall|k: int|
                            0 <= k < decisions@.len() ==> (#[trigger] decisions@[k]).0 == k,
                        decisions@.map_values(|d: (usize, bool)| d.1) == verdicts + Seq::new(
                            (i - idx) as nat,
                            |i: int| true,
                        ),
                {
                    let ghost so_far = decisions@.map_values(|d: (usize, bool)| d.1);
                    decide(&mut decisions, i, 'A');
                    assert(decisions@.map_values(|d: (usize, bool)| d.1) == so_far.push(true));
                }
            },
            Choice::Quit => {
                return PreviewPatcher { total, decisions, stopped: true };
            },
            Choice::Back => {
                decide(&mut decisions, idx, '<');
                assert(before.len() > 0 ==> decisions@.map_values(|d: (usize, bool)| d.1)
                    == verdicts.drop_last());
            },
        }
        PreviewPatcher { total, decisions, stopped }
    }

    /// The entries that have been accepted.
    pub fn accepted(&self, plan: &[PlanEntry]) -> (entries: Vec<PlanEntry>)
        ensures
            rename::planned(entries@) == accepted(rename::planned(plan@), self@.verdicts),
    {
        proof {
            use_type_invariant(self);
        }
        let mut entries: Vec<PlanEntry> = Vec::new();
        let ghost all = rename::planned(plan@);
        let ghost verdicts = self@.verdicts;
        assert(rename::planned(entries@) == Seq::<Planned>::empty());
        for i in 0..plan.len()
            invariant
                all == rename::planned(plan@),
                verdicts == self.decisions@.map_values(|d: (usize, bool)| d.1),
                rename::planned(entries@) == accepted(all.take(i as int), verdicts),
        {
            assert(all.take(i + 1).drop_last() == all.take(i as int));
            assert(all.take(i + 1).last() == plan@[i as int]@);
            if i < self.decisions.len() && self.decisions[i].1 {
                let ghost before = rename::planned(entries@);
                entries.push(plan[i].copy());
                assert(rename::planned(entries@) == before.push(plan@[i as int]@));
            }
        }
        assert(all.take(all.len() as int) == all);
        entries
    }
}

/// What is shown above an entry: which it is, and of how many.
pub fn header(idx: usize, total: usize) -> (out: String)
    requires
        idx < total,
    ensures
        out@ == "Rename ["@ + text::decimal((idx + 1) as nat) + "/"@ + text::decimal(total as nat)
            + "]"@,
{
    let mut out = "Rename [".to_string();
    let number = text::decimal_string((idx + 1) as u64);
    out.push_str(number.as_str());
    out.push_str("/");
    let count = text::decimal_string(total as u64);
    out.push_str(count.as_str());
    out.push_str("]");
    out
}

// ---- keys ------------------------------------------------------------------------

/// A key that was pressed.
#[derive(Clone, Copy, Debug, PartialEq, Eq, Structural)]
pub enum Key {
    /// A character, with or without the control key.
    Char { c: char, control: bool },
    Enter,
    Left,
    Right,
    Other,
}

/// What a key means while the user is asked about an entry.
#[derive(Clone, Copy, Debug, PartialEq, Eq, Structural)]
pub enum Response {
    /// The user has chosen.
    Chosen(Choice),
    /// The user wants the program to end.
    Interrupt,
    /// Nothing.
    Ignored,
}

/// What a key means: enter accepts, the arrows go back and on as long as there is
/// an entry to go to, and the letters are those of the prompt.
pub open spec fn meaning(key: Key, is_first: bool, is_last: bool) -> Response {
    match key {
        Key::Char { c, control } => if c == 'c' && control {
            Response::Interrupt
        } else if c == 'y' {
            Response::Chosen(Choice::Accept)
        } else if c == 'n' {
            Response::Chosen(Choice::Reject)
        } else if c == 'A' {
            Response::Chosen(Choice::AcceptAll)
        } else if c == 'q' {
            Response::Chosen(Choice::Quit)
        } else {
            Response::Ignored
        },
        Key::Enter => Response::Chosen(Choice::Accept),
        Key::Left => if is_first {
            Response::Ignored
        } else {
            Response::Chosen(Choice::Back)
        },
        Key::Right => if is_last {
            Response::Ignored
        } else {
            Response::Chosen(Choice::Skip)
        },
        Key::Other => Response::Ignored,
    }
}

/// What the key means.
pub fn interpret(key: Key, is_first: bool, is_last: bool) -> (response: Response)
    ensures
        response == meaning(key, is_first, is_last),
{
    match key {
        Key::Char { c, control } => if c == 'c' && control {
            Response::Interrupt
        } else if c == 'y' {
            Response::Chosen(Choice::Accept)
        } else if c == 'n' {
            Response::Chosen(Choice::Reject)
        } else if c == 'A' {
            Response::Chosen(Choice::AcceptAll)
        } else if c == 'q' {
            Response::Chosen(Choice::Quit)
        } else {
            Response::Ignored
        },
        Key::Enter => Response::Chosen(Choice::Accept),
        Key::Left => if is_first {
            Response::Ignored
        } else {
            Response::Chosen(Choice::Back)
        },
        Key::Right => if is_last {
            Response::Ignored
        } else {
            Response::Chosen(Choice::Skip)
        },
        Key::Other => Response::Ignored,
    }
}

// ---- what an entry looks like ----------------------------------------------------

/// How many characters two texts have in common at their beginning.
pub open spec fn common_prefix(a: Seq<char>, b: Seq<char>) -> nat
    decreases a.len(),
{
    if a.len() > 0 && b.len() > 0 && a[0] == b[0] {
        1 + common_prefix(a.skip(1), b.skip(1))
    } else {
        0
    }
}

/// How many characters two texts have in common at their end.
pub open spec fn common_suffix(a: Seq<char>, b: Seq<char>) -> nat
    decreases a.len(),
{
    if a.len() > 0 && b.len() > 0 && a.last() == b.last() {
        1 + common_suffix(a.drop_last(), b.drop_last())
    } else {
        0
    }
}

/// How many characters two texts have in common at their end, behind what they
/// have in common at their beginning.
pub open spec fn rest_suffix(a: Seq<char>, b: Seq<char>) -> nat {
    let p = common_prefix(a, b) as int;
    common_suffix(a.skip(p), b.skip(p))
}

proof fn lemma_common_prefix(a: Seq<char>, b: Seq<char>)
    ensures
        common_prefix(a, b) <= a.len(),
        common_prefix(a, b) <= b.len(),
        a.take(common_prefix(a, b) as int) == b.take(common_prefix(a, b) as int),
    decreases a.len(),
{
    if a.len() > 0 && b.len() > 0 && a[0] == b[0] {
        lemma_common_prefix(a.skip(1), b.skip(1));
        let p = common_prefix(a, b) as int;
        assert(a.take(p) =~= seq![a[0]] + a.skip(1).take(p - 1));
        assert(b.take(p) =~= seq![b[0]] + b.skip(1).take(p - 1));
    } else {
        assert(a.take(0) =~= b.take(0));
    }
}

proof fn lemma_common_suffix(a: Seq<char>, b: Seq<char>)
    ensures
        common_suffix(a, b) <= a.len(),
        common_suffix(a, b) <= b.len(),
        a.skip(a.len() - common_suffix(a, b)) == b.skip(b.len() - common_suffix(a, b)),
    decreases a.len(),
{
    let s = common_suffix(a, b) as int;
    if a.len() > 0 && b.len() > 0 && a.last() == b.last() {
        lemma_common_suffix(a.drop_last(), b.drop_last());
        assert(a.skip(a.len() - s) =~= a.drop_last().skip(a.len() - s).push(a.last()));
        assert(b.skip(b.len() - s) =~= b.drop_last().skip(b.len() - s).push(b.last()));
    } else {
        assert(a.skip(a.len() as int) =~= b.skip(b.len() as int));
    }
}

fn prefix_chars(a: &Vec<char>, b: &Vec<char>) -> (p: usize)
    ensures
        p == common_prefix(a@, b@),
        p <= a@.len(),
        p <= b@.len(),
{
    let mut p: usize = 0;
    assert(a@.skip(0) == a@);
    assert(b@.skip(0) == b@);
    while p < a.len() && p < b.len() && a[p] == b[p]
        invariant
            p <= a@.len(),
            p <= b@.len(),
            common_prefix(a@, b@) == p + common_prefix(a@.skip(p as int), b@.skip(p as int)),
        decreases a@.len() - p,
    {
        assert(a@.skip(p as int).skip(1) == a@.skip(p + 1));
        assert(b@.skip(p as int).skip(1) == b@.skip(p + 1));
        p = p + 1;
    }
    p
}

fn suffix_chars(a: &Vec<char>, b: &Vec<char>, p: usize) -> (s: usize)
    requires
        p <= a@.len(),
        p <= b@.len(),
    ensures
        s == common_suffix(a@.skip(p as int), b@.skip(p as int)),
        s <= a@.len() - p,
        s <= b@.len() - p,
{
    let ghost left = a@.skip(p as int);
    let ghost right = b@.skip(p as int);
    let mut s: usize = 0;
    assert(left.take(left.len() - 0) == left);
    assert(right.take(right.len() - 0) == right);
    while s < a.len() - p && s < b.len() - p && a[a.len() - 1 - s] == b[b.len() - 1 - s]
        invariant
            p <= a.len(),
            p <= b.len(),
            s <= a.len() - p,
            s <= b.len() - p,
            left == a@.skip(p as int),
            right == b@.skip(p as int),
            common_suffix(left, right) == s + common_suffix(
                left.take(left.len() - s),
                right.take(right.len() - s),
            ),
        decreases a@.len() - s,
    {
        assert(left.take(left.len() - s).drop_last() == left.take(left.len() - s - 1));
        assert(right.take(right.len() - s).drop_last() == right.take(right.len() - s - 1));
        s = s + 1;
    }
    s
}

/// How many bytes two texts have in common at their beginning, and how many they
/// have in common behind that, at their end.
pub fn common_prefix_suffix(old: &str, new: &str) -> (out: (usize, usize))
    ensures
        out.0 == encode_utf8(old@.take(common_prefix(old@, new@) as int)).len(),
        out.1 == encode_utf8(old@.skip(old@.len() - rest_suffix(old@, new@))).len(),
{
    let a = text::chars_of(old);
    let b = text::chars_of(new);
    let p = prefix_chars(&a, &b);
    let s = suffix_chars(&a, &b, p);
    let prefix = text::string_of_range(&a, 0, p);
    let suffix = text::string_of_range(&a, a.len() - s, a.len());
    assert(prefix@ == old@.take(p as int));
    assert(suffix@ == old@.skip(old@.len() - s));
    (prefix.as_str().as_bytes().len(), suffix.as_str().as_bytes().len())
}

/// The parts in which a rename is shown.
pub struct InlineDiff {
    /// The directory of the entry, if it is shown.
    pub parent: Option<String>,
    /// What the names have in common at their beginning.
    pub prefix: String,
    /// What goes.
    pub old_changed: String,
    /// What comes.
    pub new_changed: String,
    /// What the names have in common at their end.
    pub suffix: String,
}

/// The text of the name that a path ends in, or no text.
pub open spec fn shown_name(p: Seq<u8>) -> Seq<char> {
    match path::file_name(p) {
        Some(name) => text::lossy(name),
        None => Seq::empty(),
    }
}

/// The directory that a path is in, as it is shown: without a `./` at its
/// beginning, and not at all if nothing is left.
pub open spec fn shown_parent(p: Seq<u8>) -> Option<Seq<char>> {
    let shown = text::lossy(path::directory(p));
    let rest = if text::starts_with(shown, "./"@) {
        shown.skip(2)
    } else {
        shown
    };
    if path::directory(p).len() == 0 || rest.len() == 0 {
        None
    } else {
        Some(rest)
    }
}

impl InlineDiff {
    /// Whether the parts are those of a rename.
    pub open spec fn shows(&self, old: Seq<u8>, new: Seq<u8>) -> bool {
        let a = shown_name(old);
        let b = shown_name(new);
        let p = common_prefix(a, b) as int;
        let s = rest_suffix(a, b) as int;
        &&& self.parent is Some <==> shown_parent(old) is Some
        &&& self.parent matches Some(dir) ==> shown_parent(old) == Some(dir@)
        &&& self.prefix@ == a.take(p)
        &&& self.old_changed@ == a.subrange(p, a.len() - s)
        &&& self.new_changed@ == b.subrange(p, b.len() - s)
        &&& self.suffix@ == a.skip(a.len() - s)
    }
}

fn name_shown(p: &PathName) -> (out: String)
    ensures
        out@ == shown_name(p@),
{
    match p.file_name() {
        Some(name) => text::decode_lossy(&name),
        None => String::new(),
    }
}

fn parent_shown(p: &PathName) -> (out: Option<String>)
    ensures
        out is Some <==> shown_parent(p@) is Some,
        out matches Some(s) ==> shown_parent(p@) == Some(s@),
{
    let dir = p.directory();
    if dir.bytes.len() == 0 {
        return None;
    }
    let shown = dir.to_text_lossy();
    let chars = text::chars_of(shown.as_str());
    assert(chars@.skip(0) == chars@);
    proof {
        reveal_strlit("./");
    }
    let from: usize = if text::chars_start_with(&chars, 0, "./") {
        2
    } else {
        0
    };
    if from == chars.len() {
        return None;
    }
    let rest = text::string_of_range(&chars, from, chars.len());
    assert(rest@ == shown@.skip(from as int));
    Some(rest)
}

/// The parts in which the rename of a path is shown.
pub fn inline_diff(old: &PathName, new: &PathName) -> (diff: InlineDiff)
    ensures
        diff.shows(old@, new@),
{
    let old_name = name_shown(old);
    let new_name = name_shown(new);
    let a = text::chars_of(old_name.as_str());
    let b = text::chars_of(new_name.as_str());
    let p = prefix_chars(&a, &b);
    let s = suffix_chars(&a, &b, p);
    let diff = InlineDiff {
        parent: parent_shown(old),
        prefix: text::string_of_range(&a, 0, p),
        old_changed: text::string_of_range(&a, p, a.len() - s),
        new_changed: text::string_of_range(&b, p, b.len() - s),
        suffix: text::string_of_range(&a, a.len() - s, a.len()),
    };
    assert(diff.prefix@ == a@.take(p as int));
    assert(diff.suffix@ == a@.skip(a@.len() - s));
    diff
}

// ---- laws ------------------------------------------------------------------------

/// Going back takes back the last decision.
pub proof fn law_back_revises(session: Session, choice: Choice)
    requires
        session.verdicts.len() + 1 < session.total,
        choice is Accept || choice is Reject || choice is Skip,
    ensures
        session.after(choice).after(Choice::Back) == session,
{
    if !session.stopped {
        let next = session.after(choice);
        assert(next.verdicts.drop_last() == session.verdicts);
    }
}

/// After all have been accepted there is nothing more to ask, what had been
/// decided stands, and everything else is accepted.
pub proof fn law_accept_all_finishes(session: Session)
    requires
        !session.finished(),
    ensures
        session.after(Choice::AcceptAll).finished(),
        session.after(Choice::AcceptAll).verdicts.len() == session.total,
        session.after(Choice::AcceptAll).verdicts.take(session.verdicts.len() as int)
            == session.verdicts,
        forall|i: int|
            session.verdicts.len() <= i < session.total ==> #[trigger] session.after(
                Choice::AcceptAll,
            ).verdicts[i],
{
}

/// Once the user has quit, nothing changes any more: what had been accepted stays
/// accepted.
pub proof fn law_quit_keeps_decisions(session: Session, later: Choice)
    ensures
        session.after(Choice::Quit).finished(),
        session.after(Choice::Quit).verdicts == session.verdicts,
        session.after(Choice::Quit).after(later) == session.after(Choice::Quit),
{
}

/// No choice decides on more entries than there are.
pub proof fn law_decisions_stay_within_the_plan(session: Session, choice: Choice)
    requires
        session.verdicts.len() <= session.total,
    ensures
        session.after(choice).verdicts.len() <= session.after(choice).total == session.total,
{
}

/// An entry that has been accepted is among those that are kept, and every entry
/// that is kept is one of the plan.
pub proof fn law_accepted_entries_are_kept<T>(plan: Seq<T>, verdicts: Seq<bool>)
    ensures
        forall|i: int|
            0 <= i < plan.len() && i < verdicts.len() && verdicts[i] ==> accepted(
                plan,
                verdicts,
            ).contains(#[trigger] plan[i]),
        forall|e: T| #[trigger] accepted(plan, verdicts).contains(e) ==> plan.contains(e),
    decreases plan.len(),
{
    if plan.len() > 0 {
        let less = plan.drop_last();
        let before = accepted(less, verdicts);
        let all = accepted(plan, verdicts);
        law_accepted_entries_are_kept(less, verdicts);
        assert forall|i: int|
            0 <= i < plan.len() && i < verdicts.len() && verdicts[i] implies all.contains(
            #[trigger] plan[i],
        ) by {
            if i < less.len() {
                assert(before.contains(less[i]));
                let k = choose|k: int| 0 <= k < before.len() && before[k] == less[i];
                assert(all[k] == plan[i]);
            } else {
                assert(all[all.len() - 1] == plan[i]);
            }
        }
        assert forall|e: T| #[trigger] all.contains(e) implies plan.contains(e) by {
            let k = choose|k: int| 0 <= k < all.len() && all[k] == e;
            if k < before.len() {
                assert(before.contains(before[k]));
                let m = choose|m: int| 0 <= m < less.len() && less[m] == e;
                assert(plan[m] == e);
            } else {
                assert(plan[plan.len() - 1] == e);
            }
        }
    }
}

/// The parts of a rename make up the old name, and the new one.
#[verifier::rlimit(40)]
#[verifier::spinoff_prover]
pub proof fn law_parts_make_up_both_names(diff: InlineDiff, old: Seq<u8>, new: Seq<u8>)
    requires
        diff.shows(old, new),
    ensures
        diff.prefix@ + diff.old_changed@ + diff.suffix@ == shown_name(old),
        diff.prefix@ + diff.new_changed@ + diff.suffix@ == shown_name(new),
{
    let a = shown_name(old);
    let b = shown_name(new);
    let p = common_prefix(a, b) as int;
    lemma_common_prefix(a, b);
    lemma_common_suffix(a.skip(p), b.skip(p));
    let s = rest_suffix(a, b) as int;
    assert(a.skip(p).skip(a.len() - p - s) =~= a.skip(a.len() - s));
    assert(b.skip(p).skip(b.len() - p - s) =~= b.skip(b.len() - s));
    assert(a.take(p) + a.subrange(p, a.len() - s) + a.skip(a.len() - s) =~= a);
    assert(b.take(p) + b.subrange(p, b.len() - s) + b.skip(b.len() - s) =~= b);
}

// ---- laws on choices ----------------------------------------------------------------

/// While there are entries to decide on, accepting decides for the next one, rejecting
/// and skipping against it, and both leave all else as it is. Going back takes the
/// last decision back, if there is one, and quitting decides nothing more.
pub proof fn law_choices_decide_on_the_next_entry(session: Session)
    requires
        !session.stopped,
        session.verdicts.len() < session.total,
    ensures
        ({
            let n = session.verdicts.len() as int;
            let yes = session.after(Choice::Accept);
            let no = session.after(Choice::Reject);
            let skipped = session.after(Choice::Skip);
            let back = session.after(Choice::Back);
            let quit = session.after(Choice::Quit);
            &&& yes.verdicts.len() == n + 1 && yes.verdicts.take(n) == session.verdicts
                && yes.verdicts[n] && !yes.stopped && yes.total == session.total
            &&& no.verdicts.len() == n + 1 && no.verdicts.take(n) == session.verdicts
                && !no.verdicts[n] && !no.stopped && no.total == session.total
            &&& skipped == no
            &&& n > 0 ==> back.verdicts == session.verdicts.take(n - 1) && !back.stopped
                && back.total == session.total
            &&& n == 0 ==> back == session
            &&& quit.verdicts == session.verdicts && quit.stopped && quit.total == session.total
        }),
{
    let n = session.verdicts.len() as int;
    assert(session.verdicts.push(true).take(n) =~= session.verdicts);
    assert(session.verdicts.push(false).take(n) =~= session.verdicts);
    if n > 0 {
        assert(session.verdicts.drop_last() =~= session.verdicts.take(n - 1));
    }
}

/// Once all is decided, or the user has stopped, nothing changes any more.
pub proof fn law_the_end_is_the_end(session: Session, choice: Choice)
    requires
        session.stopped || session.verdicts.len() >= session.total,
    ensures
        session.finished(),
        session.after(choice) == session,
{
}

/// The entries that are kept are those decided for, each in its turn: one that was
/// decided against, or not at all, is not kept.
pub proof fn law_decisions_pick_the_entries<T>(plan: Seq<T>, verdicts: Seq<bool>, e: T)
    ensures
        accepted(Seq::<T>::empty(), verdicts) == Seq::<T>::empty(),
        plan.len() < verdicts.len() && verdicts[plan.len() as int] ==> accepted(
            plan.push(e),
            verdicts,
        ) == accepted(plan, verdicts).push(e),
        plan.len() < verdicts.len() && !verdicts[plan.len() as int] ==> accepted(
            plan.push(e),
            verdicts,
        ) == accepted(plan, verdicts),
        plan.len() >= verdicts.len() ==> accepted(plan.push(e), verdicts) == accepted(
            plan,
            verdicts,
        ),
{
    assert(plan.push(e).drop_last() =~= plan);
}

/// If all is decided for, the whole plan is kept, and if nothing is, none of it.
pub proof fn law_all_or_nothing<T>(plan: Seq<T>, verdicts: Seq<bool>)
    ensures
        plan.len() <= verdicts.len() && (forall|i: int|
            0 <= i < plan.len() ==> #[trigger] verdicts[i]) ==> accepted(plan, verdicts) == plan,
        (forall|i: int| 0 <= i < verdicts.len() ==> !(#[trigger] verdicts[i])) ==> accepted(
            plan,
            verdicts,
        ) == Seq::<T>::empty(),
    decreases plan.len(),
{
    if plan.len() > 0 {
        law_all_or_nothing(plan.drop_last(), verdicts);
        assert(plan.drop_last().push(plan.last()) =~= plan);
    } else {
        assert(plan =~= Seq::<T>::empty());
    }
}

/// Which key means what: `y` and enter accept, `n` rejects, `A` accepts all, `q` quits,
/// the arrows go back and on where there is somewhere to go, and `c` with the control
/// key interrupts. No other key means anything.
pub proof fn law_keys_mean_choices(c: char, control: bool, is_first: bool, is_last: bool)
    ensures
        meaning(Key::Char { c: 'y', control }, is_first, is_last) == Response::Chosen(
            Choice::Accept,
        ),
        meaning(Key::Enter, is_first, is_last) == Response::Chosen(Choice::Accept),
        meaning(Key::Char { c: 'n', control }, is_first, is_last) == Response::Chosen(
            Choice::Reject,
        ),
        meaning(Key::Char { c: 'A', control }, is_first, is_last) == Response::Chosen(
            Choice::AcceptAll,
        ),
        meaning(Key::Char { c: 'q', control }, is_first, is_last) == Response::Chosen(
            Choice::Quit,
        ),
        meaning(Key::Left, false, is_last) == Response::Chosen(Choice::Back),
        meaning(Key::Left, true, is_last) is Ignored,
        meaning(Key::Right, is_first, false) == Response::Chosen(Choice::Skip),
        meaning(Key::Right, is_first, true) is Ignored,
        meaning(Key::Char { c: 'c', control: true }, is_first, is_last) is Interrupt,
        meaning(Key::Char { c: 'c', control: false }, is_first, is_last) is Ignored,
        meaning(Key::Other, is_first, is_last) is Ignored,
        c != 'y' && c != 'n' && c != 'A' && c != 'q' && c != 'c' ==> meaning(
            Key::Char { c, control },
            is_first,
            is_last,
        ) is Ignored,
{
}

/// Decisions are noted as they are made: for and against the entry in question, and
/// going back takes the last one away and goes to the entry before. Anything else
/// notes nothing.
pub proof fn law_decisions_are_noted(decisions: Seq<(usize, bool)>, idx: usize, action: char)
    ensures
        decided(decisions, idx, 'y') == (decisions.push((idx, true)), idx),
        decided(decisions, idx, 'A') == (decisions.push((idx, true)), idx),
        decided(decisions, idx, 'n') == (decisions.push((idx, false)), idx),
        decided(decisions, idx, '>') == (decisions.push((idx, false)), idx),
        decisions.len() > 0 && idx > 0 ==> decided(decisions, idx, '<') == (
            decisions.take(decisions.len() - 1),
            (idx - 1) as usize,
        ),
        decisions.len() == 0 ==> decided(decisions, idx, '<') == (decisions, 0usize),
        action != 'y' && action != 'A' && action != 'n' && action != '>' && action != '<'
            ==> decided(decisions, idx, action) == (decisions, idx),
{
    if decisions.len() > 0 {
        assert(decisions.drop_last() =~= decisions.take(decisions.len() - 1));
    }
}

/// What two names have in common at their beginning is as long as can be, and so is
/// what the rest of them have in common at its end.
pub proof fn law_common_parts_are_as_long_as_can_be(a: Seq<char>, b: Seq<char>)
    ensures
        common_prefix(a, b) <= a.len(),
        common_prefix(a, b) <= b.len(),
        forall|i: int| 0 <= i < common_prefix(a, b) ==> a[i] == b[i],
        common_prefix(a, b) < a.len() && common_prefix(a, b) < b.len() ==> a[common_prefix(
            a,
            b,
        ) as int] != b[common_prefix(a, b) as int],
        common_suffix(a, b) <= a.len(),
        common_suffix(a, b) <= b.len(),
        forall|i: int|
            0 < i <= common_suffix(a, b) ==> #[trigger] a[a.len() - i] == b[b.len() - i],
        common_suffix(a, b) < a.len() && common_suffix(a, b) < b.len() ==> a[a.len()
            - common_suffix(a, b) - 1] != b[b.len() - common_suffix(a, b) - 1],
        rest_suffix(a, b) == common_suffix(
            a.skip(common_prefix(a, b) as int),
            b.skip(common_prefix(a, b) as int),
        ),
{
    lemma_longest_prefix(a, b);
    lemma_longest_suffix(a, b);
}

proof fn lemma_longest_prefix(a: Seq<char>, b: Seq<char>)
    ensures
        common_prefix(a, b) <= a.len(),
        common_prefix(a, b) <= b.len(),
        forall|i: int| 0 <= i < common_prefix(a, b) ==> a[i] == b[i],
        common_prefix(a, b) < a.len() && common_prefix(a, b) < b.len() ==> a[common_prefix(
            a,
            b,
        ) as int] != b[common_prefix(a, b) as int],
    decreases a.len(),
{
    if a.len() > 0 && b.len() > 0 && a[0] == b[0] {
        lemma_longest_prefix(a.skip(1), b.skip(1));
        assert forall|i: int| 0 <= i < common_prefix(a, b) implies a[i] == b[i] by {
            if i > 0 {
                assert(a.skip(1)[i - 1] == b.skip(1)[i - 1]);
            }
        }
        let p = common_prefix(a.skip(1), b.skip(1)) as int;
        if p < a.skip(1).len() && p < b.skip(1).len() {
            assert(a.skip(1)[p] == a[p + 1]);
            assert(b.skip(1)[p] == b[p + 1]);
        }
    }
}

proof fn lemma_longest_suffix(a: Seq<char>, b: Seq<char>)
    ensures
        common_suffix(a, b) <= a.len(),
        common_suffix(a, b) <= b.len(),
        forall|i: int|
            0 < i <= common_suffix(a, b) ==> #[trigger] a[a.len() - i] == b[b.len() - i],
        common_suffix(a, b) < a.len() && common_suffix(a, b) < b.len() ==> a[a.len()
            - common_suffix(a, b) - 1] != b[b.len() - common_suffix(a, b) - 1],
    decreases a.len(),
{
    if a.len() > 0 && b.len() > 0 && a.last() == b.last() {
        let x = a.drop_last();
        let y = b.drop_last();
        lemma_longest_suffix(x, y);
        assert forall|i: int| 0 < i <= common_suffix(a, b) implies #[trigger] a[a.len() - i]
            == b[b.len() - i] by {
            if i > 1 {
                assert(x[x.len() - (i - 1)] == y[y.len() - (i - 1)]);
            }
        }
    }
}

/// What a diff shows is the longest common beginning and end of the two names, and
/// what is between them on either side.
#[verifier::rlimit(40)]
#[verifier::spinoff_prover]
pub proof fn law_diffs_show_what_differs(diff: InlineDiff, old: Seq<u8>, new: Seq<u8>)
    requires
        diff.shows(old, new),
    ensures
        diff.prefix@ + diff.old_changed@ + diff.suffix@ == shown_name(old),
        diff.prefix@ + diff.new_changed@ + diff.suffix@ == shown_name(new),
        diff.old_changed@.len() > 0 && diff.new_changed@.len() > 0 ==> diff.old_changed@[0]
            != diff.new_changed@[0] && diff.old_changed@.last() != diff.new_changed@.last(),
        path::file_name(old) matches Some(name) ==> shown_name(old) == text::lossy(name),
{
    law_parts_make_up_both_names(diff, old, new);
    let a = shown_name(old);
    let b = shown_name(new);
    law_common_parts_are_as_long_as_can_be(a, b);
    let p = common_prefix(a, b) as int;
    let x = a.skip(p);
    let y = b.skip(p);
    law_common_parts_are_as_long_as_can_be(x, y);
    let s = rest_suffix(a, b) as int;
    if diff.old_changed@.len() > 0 && diff.new_changed@.len() > 0 {
        assert(diff.old_changed@[0] == a[p]);
        assert(diff.new_changed@[0] == b[p]);
        assert(diff.old_changed@.last() == x[x.len() - s - 1]);
        assert(diff.new_changed@.last() == y[y.len() - s - 1]);
    }
}

/// The directory of an entry is shown without a `./` before it, and not at all if
/// there is nothing else of it.
pub proof fn law_directories_are_shown_without_a_dot(p: Seq<u8>, rest: Seq<char>)
    ensures
        path::directory(p).len() == 0 ==> shown_parent(p) is None,
        path::directory(p).len() > 0 && text::lossy(path::directory(p)) == seq!['.', '/'] + rest
            && rest.len() > 0 ==> shown_parent(p) == Some(rest),
        path::directory(p).len() > 0 && text::lossy(path::directory(p)) == rest && rest.len() > 0
            && !(rest.len() >= 2 && rest[0] == '.' && rest[1] == '/') ==> shown_parent(p) == Some(
            rest,
        ),
{
    reveal_strlit("./");
    let dotted = seq!['.', '/'] + rest;
    assert(dotted.take(2) =~= "./"@);
    assert(dotted.skip(2) =~= rest);
    if text::starts_with(rest, "./"@) {
        assert(rest.take(2)[0] == '.' && rest.take(2)[1] == '/');
    }
}

} // verus!
