//! What renames do to a disk.
//!
//! A disk tells what is at each place, if anything. A rename takes everything at
//! or below one place to another, so what is in a directory goes where the
//! directory goes.

use vstd::prelude::*;
use crate::path;
use crate::rename::Planned;

verus! {

/// A rename that was performed.
pub struct Move {
    pub from: Seq<u8>,
    pub to: Seq<u8>,
}

// ---- places -----------------------------------------------------------------

/// Whether `p` is at or below the place `base`.
pub open spec fn covers(base: Seq<Seq<u8>>, p: Seq<Seq<u8>>) -> bool {
    base.len() <= p.len() && p.take(base.len() as int) == base
}

/// Whether neither of two places is at or below the other.
pub open spec fn apart(a: Seq<Seq<u8>>, b: Seq<Seq<u8>>) -> bool {
    !covers(a, b) && !covers(b, a)
}

/// The place that is below `to` as `p` is below `from`.
pub open spec fn rebased(p: Seq<Seq<u8>>, from: Seq<Seq<u8>>, to: Seq<Seq<u8>>) -> Seq<Seq<u8>> {
    to + p.skip(from.len() as int)
}

/// Two places that a third is below are not apart.
pub proof fn lemma_comparable(a: Seq<Seq<u8>>, b: Seq<Seq<u8>>, p: Seq<Seq<u8>>)
    requires
        covers(a, p),
        covers(b, p),
    ensures
        !apart(a, b),
        a.len() <= b.len() ==> covers(a, b),
{
    if a.len() <= b.len() {
        assert(b.take(a.len() as int) =~= p.take(a.len() as int));
    } else {
        assert(a.take(b.len() as int) =~= p.take(b.len() as int));
    }
}

/// What is below the one place goes below the other, and back again.
pub proof fn lemma_rebased(p: Seq<Seq<u8>>, from: Seq<Seq<u8>>, to: Seq<Seq<u8>>)
    requires
        covers(from, p),
    ensures
        covers(to, rebased(p, from, to)),
        rebased(rebased(p, from, to), to, from) == p,
        rebased(p, from, from) == p,
{
    let q = rebased(p, from, to);
    assert(q.take(to.len() as int) =~= to);
    assert(q.skip(to.len() as int) =~= p.skip(from.len() as int));
    assert(from + p.skip(from.len() as int) =~= p);
}

/// What is below a place is below the places that it is below.
pub proof fn lemma_covers_through(a: Seq<Seq<u8>>, b: Seq<Seq<u8>>, p: Seq<Seq<u8>>)
    requires
        covers(a, b),
        covers(b, p),
    ensures
        covers(a, p),
{
    assert(p.take(a.len() as int) =~= b.take(a.len() as int));
}

// ---- disks ------------------------------------------------------------------

/// Where what is at the place `q` after a rename was before it, if anything can be
/// there.
pub open spec fn came_from(m: Move, q: Seq<Seq<u8>>) -> Option<Seq<Seq<u8>>> {
    let from = path::components(m.from);
    let to = path::components(m.to);
    if covers(to, q) {
        Some(rebased(q, to, from))
    } else if covers(from, q) {
        None
    } else {
        Some(q)
    }
}

/// What a disk has at a place, if that is one.
pub open spec fn found_at<V>(
    disk: spec_fn(Seq<Seq<u8>>) -> Option<V>,
    place: Option<Seq<Seq<u8>>>,
) -> Option<V> {
    match place {
        Some(p) => disk(p),
        None => None,
    }
}

/// The disk after a rename: what was at or below `from` is at or below `to`, over
/// whatever was there.
pub open spec fn after_move<V>(disk: spec_fn(Seq<Seq<u8>>) -> Option<V>, m: Move) -> spec_fn(
    Seq<Seq<u8>>,
) -> Option<V> {
    |q: Seq<Seq<u8>>| found_at(disk, came_from(m, q))
}

/// The disk after renames, one after the other.
pub open spec fn after_moves<V>(
    disk: spec_fn(Seq<Seq<u8>>) -> Option<V>,
    moves: Seq<Move>,
) -> spec_fn(Seq<Seq<u8>>) -> Option<V>
    decreases moves.len(),
{
    if moves.len() == 0 {
        disk
    } else {
        after_move(after_moves(disk, moves.drop_last()), moves.last())
    }
}

/// Whether there is anything at or below a place.
pub open spec fn taken<V>(disk: spec_fn(Seq<Seq<u8>>) -> Option<V>, p: Seq<Seq<u8>>) -> bool {
    exists|q: Seq<Seq<u8>>| #[trigger] covers(p, q) && disk(q) is Some
}

/// Where what is at the place `q` after renames was before them, if anything can be
/// there.
spec fn origin(moves: Seq<Move>, q: Seq<Seq<u8>>) -> Option<Seq<Seq<u8>>>
    decreases moves.len(),
{
    if moves.len() == 0 {
        Some(q)
    } else {
        match came_from(moves.last(), q) {
            Some(p) => origin(moves.drop_last(), p),
            None => None,
        }
    }
}

proof fn lemma_origin<V>(
    disk: spec_fn(Seq<Seq<u8>>) -> Option<V>,
    moves: Seq<Move>,
    q: Seq<Seq<u8>>,
)
    ensures
        after_moves(disk, moves)(q) == found_at(disk, origin(moves, q)),
    decreases moves.len(),
{
    if moves.len() > 0 {
        if let Some(p) = came_from(moves.last(), q) {
            lemma_origin(disk, moves.drop_last(), p);
        }
    }
}

/// Renames in two goes have the effect of both.
pub proof fn lemma_after_moves_concat<V>(
    disk: spec_fn(Seq<Seq<u8>>) -> Option<V>,
    a: Seq<Move>,
    b: Seq<Move>,
)
    ensures
        after_moves(disk, a + b) == after_moves(after_moves(disk, a), b),
    decreases b.len(),
{
    if b.len() == 0 {
        assert(a + b == a);
    } else {
        assert((a + b).drop_last() == a + b.drop_last());
        lemma_after_moves_concat(disk, a, b.drop_last());
    }
}

// ---- the renames of a depth -------------------------------------------------

/// The first `k` entries moved aside, each to its temporary path.
pub open spec fn parks(entries: Seq<Planned>, temps: Seq<Seq<u8>>, k: nat) -> Seq<Move> {
    Seq::new(k, |i: int| Move { from: entries[i].old, to: temps[i] })
}

/// The first `k` temporary paths moved to where the entries are to go.
pub open spec fn places(entries: Seq<Planned>, temps: Seq<Seq<u8>>, k: nat) -> Seq<Move> {
    Seq::new(k, |i: int| Move { from: temps[i], to: entries[i].new })
}

/// All entries moved aside, and the first `k` of them put into place.
pub open spec fn parked_and_placed(
    entries: Seq<Planned>,
    temps: Seq<Seq<u8>>,
    k: nat,
) -> Seq<Move> {
    parks(entries, temps, entries.len()) + places(entries, temps, k)
}

/// The renames that take back the given ones: each turned round, the last
/// first.
pub open spec fn undone(moves: Seq<Move>) -> Seq<Move> {
    Seq::new(
        moves.len(),
        |i: int|
            Move { from: moves[moves.len() - 1 - i].to, to: moves[moves.len() - 1 - i].from },
    )
}

/// The place of an entry.
pub open spec fn source(entries: Seq<Planned>, i: int) -> Seq<Seq<u8>> {
    path::components(entries[i].old)
}

/// The place that an entry is to go to.
pub open spec fn target(entries: Seq<Planned>, i: int) -> Seq<Seq<u8>> {
    path::components(entries[i].new)
}

/// The place of a temporary path.
pub open spec fn aside(temps: Seq<Seq<u8>>, i: int) -> Seq<Seq<u8>> {
    path::components(temps[i])
}

/// Whether no entry is at or below another.
pub open spec fn sources_apart(entries: Seq<Planned>) -> bool {
    forall|i: int, j: int|
        0 <= i < entries.len() && 0 <= j < entries.len() && i != j ==> apart(
            #[trigger] source(entries, i),
            #[trigger] source(entries, j),
        )
}

/// Whether no entry is to go to or below where another is to go.
pub open spec fn targets_apart(entries: Seq<Planned>) -> bool {
    forall|i: int, j: int|
        0 <= i < entries.len() && 0 <= j < entries.len() && i != j ==> apart(
            #[trigger] target(entries, i),
            #[trigger] target(entries, j),
        )
}

/// Whether no temporary path is at, above or below a place that an entry is to go
/// to.
pub open spec fn clear_of_targets(entries: Seq<Planned>, temps: Seq<Seq<u8>>) -> bool {
    forall|i: int, j: int|
        0 <= i < temps.len() && 0 <= j < entries.len() ==> apart(
            #[trigger] aside(temps, i),
            #[trigger] target(entries, j),
        )
}

/// Whether a place is at or below one of the entries.
pub open spec fn in_source(entries: Seq<Planned>, p: Seq<Seq<u8>>) -> bool {
    exists|i: int| 0 <= i < entries.len() && covers(#[trigger] source(entries, i), p)
}

/// Whether a place is at or below one that an entry is to go to.
pub open spec fn in_target(entries: Seq<Planned>, p: Seq<Seq<u8>>) -> bool {
    exists|i: int| 0 <= i < entries.len() && covers(#[trigger] target(entries, i), p)
}

/// Whether the entries are on the disk.
pub open spec fn sources_exist<V>(
    disk: spec_fn(Seq<Seq<u8>>) -> Option<V>,
    entries: Seq<Planned>,
) -> bool {
    forall|i: int| 0 <= i < entries.len() ==> taken(disk, #[trigger] source(entries, i))
}

/// Whether all that is at or below a place that an entry is to go to is at or below
/// one of the entries.
pub open spec fn targets_free<V>(
    disk: spec_fn(Seq<Seq<u8>>) -> Option<V>,
    entries: Seq<Planned>,
) -> bool {
    forall|q: Seq<Seq<u8>>| #[trigger]
        in_target(entries, q) && disk(q) is Some ==> in_source(entries, q)
}

/// Whether each temporary path, at its turn, is free.
pub open spec fn free_in_turn<V>(
    disk: spec_fn(Seq<Seq<u8>>) -> Option<V>,
    entries: Seq<Planned>,
    temps: Seq<Seq<u8>>,
) -> bool {
    forall|i: int|
        0 <= i < temps.len() ==> !taken(
            after_moves(disk, parks(entries, temps, i as nat)),
            #[trigger] aside(temps, i),
        )
}

/// Whether each temporary path is in the directory of its entry, under another
/// name.
pub open spec fn beside(entries: Seq<Planned>, temps: Seq<Seq<u8>>) -> bool {
    forall|i: int|
        0 <= i < temps.len() ==> {
            &&& (#[trigger] aside(temps, i)).len() == source(entries, i).len() > 0
            &&& aside(temps, i).drop_last() == source(entries, i).drop_last()
            &&& aside(temps, i) != source(entries, i)
        }
}

/// Where what is at the place `q` was before all entries went to where they are to
/// go, if anything can be there.
pub open spec fn came_from_all(entries: Seq<Planned>, q: Seq<Seq<u8>>) -> Option<Seq<Seq<u8>>> {
    if in_target(entries, q) {
        let i = choose|i: int| 0 <= i < entries.len() && covers(#[trigger] target(entries, i), q);
        Some(rebased(q, target(entries, i), source(entries, i)))
    } else if in_source(entries, q) {
        None
    } else {
        Some(q)
    }
}

/// The disk after all entries have gone to where they are to go, at once.
pub open spec fn after_all<V>(
    disk: spec_fn(Seq<Seq<u8>>) -> Option<V>,
    entries: Seq<Planned>,
) -> spec_fn(Seq<Seq<u8>>) -> Option<V> {
    |q: Seq<Seq<u8>>| found_at(disk, came_from_all(entries, q))
}

// ---- why temporary paths do not get in the way --------------------------------

/// Whether the first `k` temporary paths are apart from one another, and each from
/// the entries that are moved aside after it.
spec fn out_of_the_way(entries: Seq<Planned>, temps: Seq<Seq<u8>>, k: int) -> bool {
    &&& forall|i: int, j: int|
        0 <= i < k && 0 <= j < k && i != j ==> apart(
            #[trigger] aside(temps, i),
            #[trigger] aside(temps, j),
        )
    &&& forall|i: int, j: int|
        0 <= i < k && i < j < entries.len() ==> apart(
            #[trigger] aside(temps, i),
            #[trigger] source(entries, j),
        )
}

/// A place that is beside an entry is not at or below another entry, unless it is
/// that entry.
proof fn lemma_beside_apart(
    entries: Seq<Planned>,
    temps: Seq<Seq<u8>>,
    i: int,
    other: Seq<Seq<u8>>,
)
    requires
        beside(entries, temps),
        0 <= i < temps.len(),
    ensures
        covers(other, aside(temps, i)) && other != aside(temps, i) ==> covers(
            other,
            source(entries, i),
        ),
{
    let a = aside(temps, i);
    let s = source(entries, i);
    if covers(other, a) && other != a {
        if other.len() == a.len() {
            assert(a.take(a.len() as int) =~= a);
        }
        assert(a.drop_last().take(other.len() as int) =~= a.take(other.len() as int));
        assert(s.drop_last().take(other.len() as int) =~= s.take(other.len() as int));
    }
}

/// Temporary paths that are free in turn and beside their entries get in nobody's
/// way.
proof fn lemma_out_of_the_way<V>(
    disk: spec_fn(Seq<Seq<u8>>) -> Option<V>,
    entries: Seq<Planned>,
    temps: Seq<Seq<u8>>,
    k: nat,
)
    requires
        k <= temps.len() <= entries.len(),
        sources_apart(entries),
        sources_exist(disk, entries),
        beside(entries, temps),
        free_in_turn(disk, entries, temps),
    ensures
        out_of_the_way(entries, temps, k as int),
        forall|j: int|
            k <= j < entries.len() ==> taken(
                after_moves(disk, parks(entries, temps, k)),
                #[trigger] source(entries, j),
            ),
        forall|i: int|
            0 <= i < k ==> taken(
                after_moves(disk, parks(entries, temps, k)),
                #[trigger] aside(temps, i),
            ),
    decreases k,
{
    if k > 0 {
        let l = (k - 1) as nat;
        lemma_out_of_the_way(disk, entries, temps, l);
        let before = after_moves(disk, parks(entries, temps, l));
        let now = after_moves(disk, parks(entries, temps, k));
        let m = Move { from: entries[l as int].old, to: temps[l as int] };
        assert(parks(entries, temps, k).drop_last() == parks(entries, temps, l));
        assert(parks(entries, temps, k).last() == m);
        let from = source(entries, l as int);
        let to = aside(temps, l as int);
        assert(!taken(before, to));
        assert forall|j: int| l < j < entries.len() implies apart(
            to,
            #[trigger] source(entries, j),
        ) by {
            let s = source(entries, j);
            assert(taken(before, s));
            if covers(to, s) {
                let q = choose|q: Seq<Seq<u8>>| #[trigger] covers(s, q) && before(q) is Some;
                lemma_covers_through(to, s, q);
            }
            lemma_beside_apart(entries, temps, l as int, s);
            if covers(s, to) {
                if s == to {
                    assert(s.take(s.len() as int) =~= s);
                } else {
                    assert(apart(s, from));
                }
            }
        }
        assert forall|i: int| 0 <= i < l implies apart(to, #[trigger] aside(temps, i)) by {
            let a = aside(temps, i);
            assert(taken(before, a));
            if covers(to, a) {
                let q = choose|q: Seq<Seq<u8>>| #[trigger] covers(a, q) && before(q) is Some;
                lemma_covers_through(to, a, q);
            }
            lemma_beside_apart(entries, temps, l as int, a);
            if covers(a, to) {
                if a == to {
                    assert(a.take(a.len() as int) =~= a);
                } else {
                    assert(apart(a, from));
                }
            }
        }
        assert forall|q: Seq<Seq<u8>>| before(q) is Some && !covers(from, q) implies #[trigger] now(
            q,
        ) is Some by {
            if covers(to, q) {
                assert(taken(before, to));
            }
        }
        assert forall|j: int| k <= j < entries.len() implies taken(
            now,
            #[trigger] source(entries, j),
        ) by {
            let s = source(entries, j);
            assert(taken(before, s));
            let q = choose|q: Seq<Seq<u8>>| #[trigger] covers(s, q) && before(q) is Some;
            if covers(from, q) {
                lemma_comparable(from, s, q);
                assert(apart(from, s));
            }
            assert(now(q) is Some);
        }
        assert forall|i: int| 0 <= i < k implies taken(now, #[trigger] aside(temps, i)) by {
            let a = aside(temps, i);
            if i < l {
                assert(taken(before, a));
                let q = choose|q: Seq<Seq<u8>>| #[trigger] covers(a, q) && before(q) is Some;
                if covers(from, q) {
                    lemma_comparable(from, a, q);
                    assert(apart(a, from));
                }
                assert(now(q) is Some);
            } else {
                assert(taken(before, from));
                let q = choose|q: Seq<Seq<u8>>| #[trigger] covers(from, q) && before(q) is Some;
                lemma_rebased(q, from, to);
                let there = rebased(q, from, to);
                assert(covers(to, there));
                assert(now(there) == before(q));
            }
        }
        assert forall|i: int, j: int| 0 <= i < k && 0 <= j < k && i != j implies apart(
            #[trigger] aside(temps, i),
            #[trigger] aside(temps, j),
        ) by {
            if i == l {
                assert(apart(to, aside(temps, j)));
            } else if j == l {
                assert(apart(to, aside(temps, i)));
            }
        }
    } else {
        assert(parks(entries, temps, 0) == Seq::<Move>::empty());
        assert forall|j: int| 0 <= j < entries.len() implies taken(
            after_moves(disk, parks(entries, temps, k)),
            #[trigger] source(entries, j),
        ) by {
            assert(taken(disk, source(entries, j)));
        }
    }
}

/// Whether a place is at or below one of the first `k` temporary paths.
spec fn in_aside(temps: Seq<Seq<u8>>, k: int, q: Seq<Seq<u8>>) -> bool {
    exists|i: int| 0 <= i < k && covers(#[trigger] aside(temps, i), q)
}

/// Whether a place is at or below one of the first `k` entries.
spec fn in_first(entries: Seq<Planned>, k: int, q: Seq<Seq<u8>>) -> bool {
    exists|i: int| 0 <= i < k && covers(#[trigger] source(entries, i), q)
}

/// What is at no temporary path was there before, or is aside by now.
proof fn lemma_not_aside(
    entries: Seq<Planned>,
    temps: Seq<Seq<u8>>,
    k: nat,
    q: Seq<Seq<u8>>,
)
    requires
        !in_aside(temps, k as int, q),
    ensures
        origin(parks(entries, temps, k), q) == if in_first(entries, k as int, q) {
            None
        } else {
            Some(q)
        },
    decreases k,
{
    if k > 0 {
        let l = (k - 1) as nat;
        let all = parks(entries, temps, k);
        assert(all.drop_last() == parks(entries, temps, l));
        assert(all.last() == Move { from: entries[l as int].old, to: temps[l as int] });
        assert(!covers(aside(temps, l as int), q));
        if in_aside(temps, l as int, q) {
            let i = choose|i: int| 0 <= i < l && covers(#[trigger] aside(temps, i), q);
            assert(in_aside(temps, k as int, q));
        }
        lemma_not_aside(entries, temps, l, q);
        if covers(source(entries, l as int), q) {
            assert(in_first(entries, k as int, q));
        } else if in_first(entries, k as int, q) {
            let i = choose|i: int| 0 <= i < k && covers(#[trigger] source(entries, i), q);
            assert(in_first(entries, l as int, q));
        } else if in_first(entries, l as int, q) {
            let i = choose|i: int| 0 <= i < l && covers(#[trigger] source(entries, i), q);
            assert(in_first(entries, k as int, q));
        }
    }
}

/// What is at a temporary path was at its entry.
proof fn lemma_aside(
    entries: Seq<Planned>,
    temps: Seq<Seq<u8>>,
    k: nat,
    j: int,
    q: Seq<Seq<u8>>,
)
    requires
        0 <= j < k <= entries.len(),
        sources_apart(entries),
        out_of_the_way(entries, temps, k as int),
        covers(aside(temps, j), q),
    ensures
        origin(parks(entries, temps, k), q) == Some(
            rebased(q, aside(temps, j), source(entries, j)),
        ),
    decreases k,
{
    let l = (k - 1) as nat;
    let all = parks(entries, temps, k);
    assert(all.drop_last() == parks(entries, temps, l));
    assert(all.last() == Move { from: entries[l as int].old, to: temps[l as int] });
    if j == l {
        let p = rebased(q, aside(temps, j), source(entries, j));
        lemma_rebased(q, aside(temps, j), source(entries, j));
        if in_aside(temps, l as int, p) {
            let i = choose|i: int| 0 <= i < l && covers(#[trigger] aside(temps, i), p);
            lemma_comparable(aside(temps, i), source(entries, j), p);
            assert(apart(aside(temps, i), source(entries, j)));
        }
        if in_first(entries, l as int, p) {
            let i = choose|i: int| 0 <= i < l && covers(#[trigger] source(entries, i), p);
            lemma_comparable(source(entries, i), source(entries, j), p);
            assert(apart(source(entries, i), source(entries, j)));
        }
        lemma_not_aside(entries, temps, l, p);
    } else {
        if covers(aside(temps, l as int), q) {
            lemma_comparable(aside(temps, l as int), aside(temps, j), q);
            assert(apart(aside(temps, l as int), aside(temps, j)));
        }
        if covers(source(entries, l as int), q) {
            lemma_comparable(aside(temps, j), source(entries, l as int), q);
            assert(apart(aside(temps, j), source(entries, l as int)));
        }
        lemma_aside(entries, temps, l, j, q);
    }
}

/// Whether a place is at or below one that one of the first `k` entries is to go to.
spec fn in_first_target(entries: Seq<Planned>, k: int, q: Seq<Seq<u8>>) -> bool {
    exists|i: int| 0 <= i < k && covers(#[trigger] target(entries, i), q)
}

/// Where what is at a place was before all entries were moved aside and the first
/// `k` of them put into place.
proof fn lemma_placed(
    entries: Seq<Planned>,
    temps: Seq<Seq<u8>>,
    k: nat,
    q: Seq<Seq<u8>>,
)
    requires
        k <= entries.len() == temps.len(),
        sources_apart(entries),
        targets_apart(entries),
        clear_of_targets(entries, temps),
        out_of_the_way(entries, temps, entries.len() as int),
    ensures
        forall|j: int|
            0 <= j < k && covers(#[trigger] target(entries, j), q) ==> origin(
                parked_and_placed(entries, temps, k),
                q,
            ) == Some(rebased(q, target(entries, j), source(entries, j))),
        !in_first_target(entries, k as int, q) && in_aside(temps, k as int, q) ==> origin(
            parked_and_placed(entries, temps, k),
            q,
        ) is None,
        !in_first_target(entries, k as int, q) && !in_aside(temps, k as int, q) ==> origin(
            parked_and_placed(entries, temps, k),
            q,
        ) == origin(parks(entries, temps, entries.len()), q),
    decreases k,
{
    let all = parked_and_placed(entries, temps, k);
    if k == 0 {
        assert(all == parks(entries, temps, entries.len()));
    } else {
        let l = (k - 1) as nat;
        let less = parked_and_placed(entries, temps, l);
        assert(all.drop_last() == less);
        assert(all.last() == Move { from: temps[l as int], to: entries[l as int].new });
        let from = aside(temps, l as int);
        let to = target(entries, l as int);
        lemma_placed(entries, temps, l, q);
        if covers(to, q) {
            let p = rebased(q, to, from);
            lemma_rebased(q, to, from);
            if in_first_target(entries, l as int, p) {
                let i = choose|i: int| 0 <= i < l && covers(#[trigger] target(entries, i), p);
                lemma_comparable(from, target(entries, i), p);
                assert(apart(from, target(entries, i)));
            }
            if in_aside(temps, l as int, p) {
                let i = choose|i: int| 0 <= i < l && covers(#[trigger] aside(temps, i), p);
                lemma_comparable(from, aside(temps, i), p);
                assert(apart(from, aside(temps, i)));
            }
            lemma_placed(entries, temps, l, p);
            lemma_aside(entries, temps, entries.len(), l as int, p);
            assert(p.skip(from.len() as int) =~= q.skip(to.len() as int));
            assert(rebased(p, from, source(entries, l as int)) == rebased(
                q,
                to,
                source(entries, l as int),
            ));
            assert forall|j: int| 0 <= j < k && covers(#[trigger] target(entries, j), q) implies j
                == l by {
                if j != l {
                    lemma_comparable(target(entries, j), to, q);
                    assert(apart(target(entries, j), to));
                }
            }
            assert(in_first_target(entries, k as int, q));
        } else {
            assert(in_first_target(entries, k as int, q) <==> in_first_target(
                entries,
                l as int,
                q,
            )) by {
                if in_first_target(entries, k as int, q) {
                    let i = choose|i: int| 0 <= i < k && covers(#[trigger] target(entries, i), q);
                    assert(i < l);
                }
                if in_first_target(entries, l as int, q) {
                    let i = choose|i: int| 0 <= i < l && covers(#[trigger] target(entries, i), q);
                    assert(i < k);
                }
            }
            if covers(from, q) {
                assert forall|j: int| 0 <= j < k implies !covers(
                    #[trigger] target(entries, j),
                    q,
                ) by {
                    if covers(target(entries, j), q) {
                        lemma_comparable(from, target(entries, j), q);
                        assert(apart(from, target(entries, j)));
                    }
                }
                assert(in_aside(temps, k as int, q));
            } else {
                assert(in_aside(temps, k as int, q) <==> in_aside(temps, l as int, q)) by {
                    if in_aside(temps, k as int, q) {
                        let i = choose|i: int| 0 <= i < k && covers(#[trigger] aside(temps, i), q);
                        assert(i < l);
                    }
                    if in_aside(temps, l as int, q) {
                        let i = choose|i: int| 0 <= i < l && covers(#[trigger] aside(temps, i), q);
                        assert(i < k);
                    }
                }
                assert forall|j: int| 0 <= j < k && covers(
                    #[trigger] target(entries, j),
                    q,
                ) implies origin(all, q) == Some(
                    rebased(q, target(entries, j), source(entries, j)),
                ) by {
                    assert(j < l);
                }
            }
        }
    }
}

// ---- laws -------------------------------------------------------------------

/// Moving every entry of a depth aside and then into place takes each to its
/// target, with all that is below it, whatever chains and cycles the plan holds,
/// and leaves alone what is neither at an entry nor at a target.
pub proof fn law_two_phases_reach_targets<V>(
    disk: spec_fn(Seq<Seq<u8>>) -> Option<V>,
    entries: Seq<Planned>,
    temps: Seq<Seq<u8>>,
)
    requires
        temps.len() == entries.len(),
        sources_apart(entries),
        targets_apart(entries),
        sources_exist(disk, entries),
        beside(entries, temps),
        clear_of_targets(entries, temps),
        free_in_turn(disk, entries, temps),
    ensures
        after_moves(disk, parked_and_placed(entries, temps, entries.len())) == after_all(
            disk,
            entries,
        ),
{
    let n = entries.len();
    let moves = parked_and_placed(entries, temps, n);
    let now = after_moves(disk, moves);
    lemma_out_of_the_way(disk, entries, temps, n);
    assert forall|q: Seq<Seq<u8>>| #[trigger] now(q) == after_all(disk, entries)(q) by {
        lemma_origin(disk, moves, q);
        lemma_placed(entries, temps, n, q);
        if in_aside(temps, n as int, q) && disk(q) is Some {
            lemma_not_aside_or_free(disk, entries, temps, q);
        }
        assert(in_first_target(entries, n as int, q) == in_target(entries, q));
        assert(in_first(entries, n as int, q) == in_source(entries, q));
        if !in_target(entries, q) && !in_aside(temps, n as int, q) {
            lemma_not_aside(entries, temps, n, q);
        }
    }
    assert(now =~= after_all(disk, entries));
}

/// Nothing but entries is at a temporary path to begin with.
proof fn lemma_not_aside_or_free<V>(
    disk: spec_fn(Seq<Seq<u8>>) -> Option<V>,
    entries: Seq<Planned>,
    temps: Seq<Seq<u8>>,
    q: Seq<Seq<u8>>,
)
    requires
        temps.len() == entries.len(),
        free_in_turn(disk, entries, temps),
        out_of_the_way(entries, temps, entries.len() as int),
        in_aside(temps, temps.len() as int, q),
        disk(q) is Some,
    ensures
        in_source(entries, q),
{
    let j = choose|j: int| 0 <= j < temps.len() && covers(#[trigger] aside(temps, j), q);
    let moves = parks(entries, temps, j as nat);
    assert(!taken(after_moves(disk, moves), aside(temps, j)));
    if in_aside(temps, j, q) {
        let i = choose|i: int| 0 <= i < j && covers(#[trigger] aside(temps, i), q);
        lemma_comparable(aside(temps, i), aside(temps, j), q);
        assert(apart(aside(temps, i), aside(temps, j)));
    }
    lemma_not_aside(entries, temps, j as nat, q);
    lemma_origin(disk, moves, q);
    assert(in_first(entries, j, q));
    let i = choose|i: int| 0 <= i < j && covers(#[trigger] source(entries, i), q);
    assert(covers(source(entries, i), q));
}

/// Whether each rename, at its turn, finds a free target.
pub open spec fn all_free<V>(
    disk: spec_fn(Seq<Seq<u8>>) -> Option<V>,
    moves: Seq<Move>,
) -> bool
    decreases moves.len(),
{
    moves.len() == 0 || {
        &&& all_free(disk, moves.drop_last())
        &&& !taken(after_moves(disk, moves.drop_last()), path::components(moves.last().to))
    }
}

/// Renames to free targets are taken back by their reversal.
pub proof fn law_undo_restores<V>(
    disk: spec_fn(Seq<Seq<u8>>) -> Option<V>,
    moves: Seq<Move>,
)
    requires
        all_free(disk, moves),
    ensures
        after_moves(disk, moves + undone(moves)) == disk,
    decreases moves.len(),
{
    lemma_after_moves_concat(disk, moves, undone(moves));
    if moves.len() > 0 {
        let rest = moves.drop_last();
        let last = moves.last();
        let before = after_moves(disk, rest);
        let back = Move { from: last.to, to: last.from };
        assert(undone(moves) == seq![back] + undone(rest));
        let now = after_moves(disk, moves);
        lemma_after_moves_concat(now, seq![back], undone(rest));
        assert(seq![back].drop_last() == Seq::<Move>::empty());
        assert(after_moves(now, seq![back]) == after_move(now, back)) by {
            reveal_with_fuel(after_moves, 2);
        }
        let from = path::components(last.from);
        let to = path::components(last.to);
        let again = after_move(now, back);
        assert forall|q: Seq<Seq<u8>>| #[trigger] again(q) == before(q) by {
            if covers(from, q) {
                lemma_rebased(q, from, to);
            } else if covers(to, q) {
                assert(!taken(before, to));
            }
        }
        assert(again =~= before);
        law_undo_restores(disk, rest);
        lemma_after_moves_concat(disk, rest, undone(rest));
    } else {
        assert(undone(moves) == Seq::<Move>::empty());
    }
}

proof fn lemma_parks_free<V>(
    disk: spec_fn(Seq<Seq<u8>>) -> Option<V>,
    entries: Seq<Planned>,
    temps: Seq<Seq<u8>>,
    k: nat,
)
    requires
        k <= temps.len(),
        free_in_turn(disk, entries, temps),
    ensures
        all_free(disk, parks(entries, temps, k)),
    decreases k,
{
    if k > 0 {
        let l = (k - 1) as nat;
        lemma_parks_free(disk, entries, temps, l);
        assert(parks(entries, temps, k).drop_last() == parks(entries, temps, l));
        assert(!taken(after_moves(disk, parks(entries, temps, l)), aside(temps, l as int)));
    }
}

proof fn lemma_places_free<V>(
    disk: spec_fn(Seq<Seq<u8>>) -> Option<V>,
    entries: Seq<Planned>,
    temps: Seq<Seq<u8>>,
    k: nat,
)
    requires
        k <= entries.len() == temps.len(),
        sources_apart(entries),
        targets_apart(entries),
        targets_free(disk, entries),
        clear_of_targets(entries, temps),
        free_in_turn(disk, entries, temps),
        out_of_the_way(entries, temps, entries.len() as int),
    ensures
        all_free(disk, parked_and_placed(entries, temps, k)),
    decreases k,
{
    let n = entries.len();
    if k == 0 {
        assert(parked_and_placed(entries, temps, 0) == parks(entries, temps, n));
        lemma_parks_free(disk, entries, temps, n);
    } else {
        let l = (k - 1) as nat;
        lemma_places_free(disk, entries, temps, l);
        let moves = parked_and_placed(entries, temps, l);
        let to = target(entries, l as int);
        assert(parked_and_placed(entries, temps, k).drop_last() == moves);
        let before = after_moves(disk, moves);
        if taken(before, to) {
            let q = choose|q: Seq<Seq<u8>>| #[trigger] covers(to, q) && before(q) is Some;
            lemma_origin(disk, moves, q);
            lemma_placed(entries, temps, l, q);
            if in_first_target(entries, l as int, q) {
                let i = choose|i: int| 0 <= i < l && covers(#[trigger] target(entries, i), q);
                lemma_comparable(to, target(entries, i), q);
                assert(apart(to, target(entries, i)));
            }
            assert forall|i: int| 0 <= i < n implies !covers(#[trigger] aside(temps, i), q) by {
                if covers(aside(temps, i), q) {
                    lemma_comparable(aside(temps, i), to, q);
                    assert(apart(aside(temps, i), to));
                }
            }
            lemma_not_aside(entries, temps, n, q);
            assert(in_target(entries, q));
            assert(in_first(entries, n as int, q) == in_source(entries, q));
        }
    }
}

/// If a depth is moved aside and partly put into place, and then all of it is taken
/// back, the disk is as it was.
pub proof fn law_rollback_restores<V>(
    disk: spec_fn(Seq<Seq<u8>>) -> Option<V>,
    entries: Seq<Planned>,
    temps: Seq<Seq<u8>>,
    placed: nat,
)
    requires
        placed <= entries.len() == temps.len(),
        sources_apart(entries),
        targets_apart(entries),
        sources_exist(disk, entries),
        targets_free(disk, entries),
        beside(entries, temps),
        clear_of_targets(entries, temps),
        free_in_turn(disk, entries, temps),
    ensures
        ({
            let done = parked_and_placed(entries, temps, placed);
            after_moves(disk, done + undone(done)) == disk
        }),
{
    lemma_out_of_the_way(disk, entries, temps, entries.len());
    lemma_places_free(disk, entries, temps, placed);
    law_undo_restores(disk, parked_and_placed(entries, temps, placed));
}

/// The place that what is at `p` goes to with the entries.
pub open spec fn carried(entries: Seq<Planned>, p: Seq<Seq<u8>>) -> Seq<Seq<u8>> {
    if in_source(entries, p) {
        let i = choose|i: int| 0 <= i < entries.len() && covers(#[trigger] source(entries, i), p);
        rebased(p, source(entries, i), target(entries, i))
    } else {
        p
    }
}

/// What is at or below an entry goes to where it is below the entry's target.
pub proof fn lemma_carried(entries: Seq<Planned>, i: int, p: Seq<Seq<u8>>)
    requires
        0 <= i < entries.len(),
        sources_apart(entries),
        covers(source(entries, i), p),
    ensures
        carried(entries, p) == rebased(p, source(entries, i), target(entries, i)),
        in_target(entries, carried(entries, p)),
{
    assert(in_source(entries, p));
    let j = choose|j: int| 0 <= j < entries.len() && covers(#[trigger] source(entries, j), p);
    if i != j {
        lemma_comparable(source(entries, i), source(entries, j), p);
        assert(apart(source(entries, i), source(entries, j)));
    }
    lemma_rebased(p, source(entries, i), target(entries, i));
    assert(covers(target(entries, i), carried(entries, p)));
}

proof fn lemma_came_from_all(entries: Seq<Planned>, i: int, q: Seq<Seq<u8>>)
    requires
        0 <= i < entries.len(),
        targets_apart(entries),
        covers(target(entries, i), q),
    ensures
        came_from_all(entries, q) == Some(rebased(q, target(entries, i), source(entries, i))),
{
    assert(in_target(entries, q));
    let j = choose|j: int| 0 <= j < entries.len() && covers(#[trigger] target(entries, j), q);
    if i != j {
        lemma_comparable(target(entries, i), target(entries, j), q);
        assert(apart(target(entries, i), target(entries, j)));
    }
}

/// When all entries go to where they are to go, nothing is lost: what was at a
/// place is where it is carried to. And nothing is made: whatever is at a place has
/// been carried there.
pub proof fn law_nothing_is_lost_or_made<V>(
    disk: spec_fn(Seq<Seq<u8>>) -> Option<V>,
    entries: Seq<Planned>,
)
    requires
        sources_apart(entries),
        targets_apart(entries),
        targets_free(disk, entries),
    ensures
        forall|p: Seq<Seq<u8>>|
            disk(p) is Some ==> after_all(disk, entries)(#[trigger] carried(entries, p)) == disk(p),
        forall|q: Seq<Seq<u8>>| #[trigger]
            after_all(disk, entries)(q) is Some ==> came_from_all(entries, q) is Some && carried(
                entries,
                came_from_all(entries, q)->0,
            ) == q,
{
    let now = after_all(disk, entries);
    assert forall|p: Seq<Seq<u8>>| disk(p) is Some implies now(#[trigger] carried(entries, p))
        == disk(p) by {
        if in_source(entries, p) {
            let i = choose|i: int|
                0 <= i < entries.len() && covers(#[trigger] source(entries, i), p);
            lemma_carried(entries, i, p);
            lemma_rebased(p, source(entries, i), target(entries, i));
            lemma_came_from_all(entries, i, carried(entries, p));
        } else {
            assert(in_target(entries, p) && disk(p) is Some ==> in_source(entries, p));
        }
    }
    assert forall|q: Seq<Seq<u8>>| #[trigger] now(q) is Some implies came_from_all(
        entries,
        q,
    ) is Some && carried(entries, came_from_all(entries, q)->0) == q by {
        if in_target(entries, q) {
            let i = choose|i: int|
                0 <= i < entries.len() && covers(#[trigger] target(entries, i), q);
            let p = rebased(q, target(entries, i), source(entries, i));
            lemma_came_from_all(entries, i, q);
            lemma_rebased(q, target(entries, i), source(entries, i));
            lemma_carried(entries, i, p);
        }
    }
}

/// The entries with what is old and what is new exchanged.
pub open spec fn exchanged(entries: Seq<Planned>) -> Seq<Planned> {
    entries.map_values(|e: Planned| Planned { old: e.new, new: e.old, depth: e.depth })
}

/// If the entries go to where they are to go, and then the exchanged ones, the disk
/// is as it was.
pub proof fn law_exchanged_entries_restore<V>(
    disk: spec_fn(Seq<Seq<u8>>) -> Option<V>,
    entries: Seq<Planned>,
)
    requires
        sources_apart(entries),
        targets_apart(entries),
        targets_free(disk, entries),
    ensures
        after_all(after_all(disk, entries), exchanged(entries)) == disk,
        sources_apart(exchanged(entries)),
        targets_apart(exchanged(entries)),
{
    let inverse = exchanged(entries);
    let now = after_all(disk, entries);
    let back = after_all(now, inverse);
    assert forall|i: int| 0 <= i < entries.len() implies #[trigger] source(inverse, i) == target(
        entries,
        i,
    ) by {}
    assert forall|i: int| 0 <= i < entries.len() implies #[trigger] target(inverse, i) == source(
        entries,
        i,
    ) by {}
    assert forall|i: int, j: int|
        0 <= i < inverse.len() && 0 <= j < inverse.len() && i != j implies apart(
        #[trigger] source(inverse, i),
        #[trigger] source(inverse, j),
    ) by {
        assert(apart(target(entries, i), target(entries, j)));
    }
    assert forall|i: int, j: int|
        0 <= i < inverse.len() && 0 <= j < inverse.len() && i != j implies apart(
        #[trigger] target(inverse, i),
        #[trigger] target(inverse, j),
    ) by {
        assert(apart(source(entries, i), source(entries, j)));
    }
    assert forall|q: Seq<Seq<u8>>| #[trigger] back(q) == disk(q) by {
        assert(in_target(inverse, q) == in_source(entries, q)) by {
            if in_target(inverse, q) {
                let i = choose|i: int|
                    0 <= i < inverse.len() && covers(#[trigger] target(inverse, i), q);
                assert(covers(source(entries, i), q));
            }
            if in_source(entries, q) {
                let i = choose|i: int|
                    0 <= i < entries.len() && covers(#[trigger] source(entries, i), q);
                assert(covers(target(inverse, i), q));
            }
        }
        assert(in_source(inverse, q) == in_target(entries, q)) by {
            if in_source(inverse, q) {
                let i = choose|i: int|
                    0 <= i < inverse.len() && covers(#[trigger] source(inverse, i), q);
                assert(covers(target(entries, i), q));
            }
            if in_target(entries, q) {
                let i = choose|i: int|
                    0 <= i < entries.len() && covers(#[trigger] target(entries, i), q);
                assert(covers(source(inverse, i), q));
            }
        }
        if in_source(entries, q) {
            let i = choose|i: int|
                0 <= i < entries.len() && covers(#[trigger] source(entries, i), q);
            assert(covers(target(inverse, i), q));
            lemma_came_from_all(inverse, i, q);
            lemma_rebased(q, source(entries, i), target(entries, i));
            lemma_came_from_all(
                entries,
                i,
                rebased(q, source(entries, i), target(entries, i)),
            );
        } else if in_target(entries, q) {
            assert(disk(q) is None);
        }
    }
    assert(back =~= disk);
}

} // verus!
