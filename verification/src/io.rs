//! Paths that are handed over as bytes.

use vstd::prelude::*;
use crate::path;
use crate::path::PathName;
use crate::scan;
use crate::scan::{Found, PathRecord};
use crate::text;

verus! {

/// A line without the carriage return at its end.
pub open spec fn without_return(line: Seq<u8>) -> Seq<u8> {
    if line.len() > 0 && line.last() == 13 {
        line.drop_last()
    } else {
        line
    }
}

/// The paths that stretches of input hold: empty ones hold none, and where the
/// input has lines, a carriage return at the end of one is left out.
pub open spec fn paths_in(pieces: Seq<Seq<u8>>, null: bool) -> Seq<Seq<u8>>
    decreases pieces.len(),
{
    if pieces.len() == 0 {
        Seq::empty()
    } else {
        let before = paths_in(pieces.drop_last(), null);
        let piece = if null {
            pieces.last()
        } else {
            without_return(pieces.last())
        };
        if piece.len() > 0 {
            before.push(piece)
        } else {
            before
        }
    }
}

/// The byte that stands between paths: zero, or a line feed.
pub open spec fn separator(null: bool) -> u8 {
    if null {
        0
    } else {
        10
    }
}

/// The bytes of paths.
pub open spec fn path_views(paths: Seq<PathName>) -> Seq<Seq<u8>> {
    paths.map_values(|p: PathName| p@)
}

/// The paths in the input, which has a zero byte between each and the next if
/// `null` is set, and else a line feed.
pub fn paths_from_input(input: &Vec<u8>, null: bool) -> (paths: Vec<PathName>)
    ensures
        path_views(paths@) == paths_in(text::split_on(input@, separator(null)), null),
{
    let sep: u8 = if null {
        0
    } else {
        10
    };
    let pieces = text::split_bytes(input, sep);
    let mut paths: Vec<PathName> = Vec::new();
    let ghost all = text::split_on(input@, sep);
    assert(path_views(paths@) == Seq::<Seq<u8>>::empty());
    for i in 0..pieces.len()
        invariant
            all == text::split_on(input@, sep),
            pieces@.len() == all.len(),
            forall|k: int| 0 <= k < pieces@.len() ==> (#[trigger] pieces@[k])@ == all[k],
            path_views(paths@) == paths_in(all.take(i as int), null),
    {
        assert(all.take(i + 1).drop_last() == all.take(i as int));
        let piece = &pieces[i];
        assert(piece@ == all[i as int]);
        let end: usize = if !null && piece.len() > 0 && piece[piece.len() - 1] == 13 {
            piece.len() - 1
        } else {
            piece.len()
        };
        if end > 0 {
            let ghost before = path_views(paths@);
            let bytes = path::bytes_range(piece, 0, end);
            assert(bytes@ == (if null {
                piece@
            } else {
                without_return(piece@)
            }));
            paths.push(PathName::from_bytes(bytes));
            assert(path_views(paths@) == before.push(bytes@));
        }
    }
    assert(all.take(all.len() as int) == all);
    paths
}

/// The root that a path which was picked by itself is taken to be found under:
/// the directory that it is in.
pub open spec fn root_for(p: Seq<u8>) -> Seq<u8> {
    match path::parent(p) {
        Some(dir) => if dir.len() > 0 {
            dir
        } else {
            seq![path::DOT]
        },
        None => seq![path::DOT],
    }
}

/// Records for the paths that exist, in the order of the paths.
pub open spec fn records_for(paths: Seq<Seq<u8>>, exists_now: Seq<bool>) -> Seq<Found>
    decreases paths.len(),
{
    if paths.len() == 0 {
        Seq::empty()
    } else {
        let before = records_for(paths.drop_last(), exists_now);
        let p = paths.last();
        if exists_now[paths.len() - 1] {
            before.push(Found { path: p, root: root_for(p) })
        } else {
            before
        }
    }
}

/// Records for paths that were picked by themselves. Those that do not exist are
/// left out: `exists_now` tells, for each path, whether it does.
pub fn records_from_paths(paths: &Vec<PathName>, exists_now: &Vec<bool>) -> (records: Vec<
    PathRecord,
>)
    requires
        paths@.len() == exists_now@.len(),
    ensures
        scan::found(records@) == records_for(path_views(paths@), exists_now@),
{
    let mut records: Vec<PathRecord> = Vec::new();
    let ghost all = path_views(paths@);
    assert(scan::found(records@) == Seq::<Found>::empty());
    for i in 0..paths.len()
        invariant
            paths@.len() == exists_now@.len(),
            all == path_views(paths@),
            scan::found(records@) == records_for(all.take(i as int), exists_now@),
    {
        assert(all.take(i + 1).drop_last() == all.take(i as int));
        if exists_now[i] {
            let p = &paths[i];
            let root = match p.parent() {
                Some(dir) => if dir.bytes.len() > 0 {
                    dir
                } else {
                    PathName::from_bytes(vec![path::DOT])
                },
                None => PathName::from_bytes(vec![path::DOT]),
            };
            assert(root@ == root_for(p@));
            let ghost before = scan::found(records@);
            records.push(PathRecord { path: p.copy(), root });
            assert(scan::found(records@) == before.push(Found { path: p@, root: root_for(p@) }));
        }
    }
    assert(all.take(all.len() as int) == all);
    records
}

// ---- laws ------------------------------------------------------------------------

/// What is joined with a separator that occurs in none of the pieces is split into
/// the pieces again.
pub proof fn law_join_splits_back<T>(pieces: Seq<Seq<T>>, sep: T)
    requires
        pieces.len() > 0,
        forall|i: int| 0 <= i < pieces.len() ==> !(#[trigger] pieces[i]).contains(sep),
    ensures
        text::split_on(text::joined(pieces, seq![sep]), sep) == pieces,
    decreases pieces.len(),
{
    if pieces.len() == 1 {
        lemma_split_append(Seq::empty(), pieces[0], sep);
        assert(Seq::<T>::empty() + pieces[0] == pieces[0]);
        assert(text::split_on(Seq::<T>::empty(), sep) == seq![Seq::<T>::empty()]);
        assert(seq![Seq::<T>::empty()].drop_last().push(Seq::<T>::empty() + pieces[0]) == pieces);
    } else {
        let head = pieces.drop_last();
        law_join_splits_back(head, sep);
        let so_far = text::joined(head, seq![sep]);
        assert(so_far + seq![sep] == so_far.push(sep));
        assert(so_far.push(sep).drop_last() == so_far);
        assert(text::split_on(so_far.push(sep), sep) == head.push(Seq::empty()));
        lemma_split_append(so_far.push(sep), pieces.last(), sep);
        assert(head.push(Seq::<T>::empty()).drop_last() == head);
        assert(Seq::<T>::empty() + pieces.last() == pieces.last());
        assert(head.push(pieces.last()) == pieces);
    }
}

proof fn lemma_split_append<T>(s: Seq<T>, tail: Seq<T>, sep: T)
    requires
        !tail.contains(sep),
    ensures
        text::split_on(s + tail, sep) == text::split_on(s, sep).drop_last().push(
            text::split_on(s, sep).last() + tail,
        ),
    decreases tail.len(),
{
    text::lemma_split_nonempty(s, sep);
    let before = text::split_on(s, sep);
    if tail.len() == 0 {
        assert(s + tail == s);
        assert(before.last() + tail == before.last());
        assert(before.drop_last().push(before.last()) == before);
    } else {
        let less = tail.drop_last();
        assert forall|x: T| less.contains(x) implies tail.contains(x) by {
            let i = choose|i: int| 0 <= i < less.len() && less[i] == x;
            assert(tail[i] == x);
        }
        lemma_split_append(s, less, sep);
        assert((s + tail).drop_last() == s + less);
        assert((s + tail).last() == tail.last());
        assert(tail[tail.len() - 1] == tail.last());
        assert(tail.contains(tail.last()));
        let shorter = before.drop_last().push(before.last() + less);
        assert(shorter.drop_last() == before.drop_last());
        assert((before.last() + less).push(tail.last()) == before.last() + tail);
    }
}

/// Paths that are handed over with a zero byte between each and the next come
/// back as they are, whatever else they hold.
pub proof fn law_null_separated_paths_come_back(paths: Seq<Seq<u8>>)
    requires
        paths.len() > 0,
        forall|i: int| 0 <= i < paths.len() ==> (#[trigger] paths[i]).len() > 0,
        forall|i: int| 0 <= i < paths.len() ==> !(#[trigger] paths[i]).contains(0u8),
    ensures
        paths_in(text::split_on(text::joined(paths, seq![0u8]), separator(true)), true) == paths,
{
    law_join_splits_back(paths, 0u8);
    lemma_nonempty_pieces_are_paths(paths);
}

proof fn lemma_nonempty_pieces_are_paths(pieces: Seq<Seq<u8>>)
    requires
        forall|i: int| 0 <= i < pieces.len() ==> (#[trigger] pieces[i]).len() > 0,
    ensures
        paths_in(pieces, true) == pieces,
    decreases pieces.len(),
{
    if pieces.len() > 0 {
        assert(pieces[pieces.len() - 1] == pieces.last());
        lemma_nonempty_pieces_are_paths(pieces.drop_last());
        assert(pieces.drop_last().push(pieces.last()) == pieces);
    }
}

/// No path is empty.
pub proof fn law_paths_are_not_empty(pieces: Seq<Seq<u8>>, null: bool)
    ensures
        forall|i: int|
            0 <= i < paths_in(pieces, null).len() ==> (#[trigger] paths_in(pieces, null)[i]).len()
                > 0,
    decreases pieces.len(),
{
    if pieces.len() > 0 {
        law_paths_are_not_empty(pieces.drop_last(), null);
        let before = paths_in(pieces.drop_last(), null);
        assert forall|i: int| 0 <= i < paths_in(pieces, null).len() implies (
        #[trigger] paths_in(pieces, null)[i]).len() > 0 by {
            assert(i < before.len() ==> before[i].len() > 0);
        }
    }
}

/// An entry that was picked by itself is one level below its root, if its path
/// ends in a name.
pub proof fn law_picked_entries_are_at_depth_one(p: Seq<u8>)
    requires
        path::file_name(p) is Some,
    ensures
        path::depth_below(p, root_for(p)) == 1,
{
    path::law_directory_and_name(p);
    let dir = path::directory(p);
    let parts = path::components(dir);
    if dir.len() > 0 {
        assert(path::components(p).take(parts.len() as int) == parts);
    } else {
        let here = seq![path::DOT];
        assert(parts == Seq::<Seq<u8>>::empty());
        assert(here.take(1) == here);
        assert(path::components(here) == seq![here]);
        let name = path::file_name(p)->0;
        let start = path::body_start(p);
        path::lemma_content_end(p, start, p.len() as int);
        assert(!path::is_trivial(name));
        assert(path::components(p).take(1)[0] == name);
        assert(seq![here][0] == here);
    }
}

// ---- laws on lines and records ------------------------------------------------------

/// The paths of an input are taken piece by piece, in order: every piece that is not
/// empty is a path, and on a line of its own a carriage return at the end is no part
/// of it.
pub proof fn law_every_piece_is_a_path(a: Seq<Seq<u8>>, b: Seq<Seq<u8>>, p: Seq<u8>, null: bool)
    ensures
        paths_in(a + b, null) == paths_in(a, null) + paths_in(b, null),
        p.len() > 0 && (null || p.last() != 13) ==> paths_in(seq![p], null) == seq![p],
        p.len() > 0 ==> paths_in(seq![p.push(13)], false) == seq![p],
        paths_in(seq![Seq::<u8>::empty()], null) == Seq::<Seq<u8>>::empty(),
        paths_in(seq![seq![13u8]], false) == Seq::<Seq<u8>>::empty(),
        null ==> paths_in(seq![p.push(13)], null) == seq![p.push(13)],
        separator(true) == 0,
        separator(false) == 10,
    decreases b.len(),
{
    assert(paths_in(Seq::empty(), null) =~= Seq::<Seq<u8>>::empty());
    assert(paths_in(Seq::empty(), false) =~= Seq::<Seq<u8>>::empty());
    assert forall|x: Seq<u8>| #[trigger] seq![x].drop_last() =~= Seq::<Seq<u8>>::empty() by {}
    assert(seq![p].drop_last() =~= Seq::<Seq<u8>>::empty());
    assert(seq![p.push(13)].drop_last() =~= Seq::<Seq<u8>>::empty());
    assert(seq![Seq::<u8>::empty()].drop_last() =~= Seq::<Seq<u8>>::empty());
    assert(seq![seq![13u8]].drop_last() =~= Seq::<Seq<u8>>::empty());
    assert(p.push(13).drop_last() =~= p);
    assert(seq![13u8].drop_last() =~= Seq::<u8>::empty());
    if p.len() > 0 && (null || p.last() != 13) {
        assert(paths_in(seq![p], null) =~= seq![p]);
    }
    if p.len() > 0 {
        assert(paths_in(seq![p.push(13)], false) =~= seq![p]);
    }
    if null {
        assert(paths_in(seq![p.push(13)], null) =~= seq![p.push(13)]);
    }
    if b.len() == 0 {
        assert(a + b =~= a);
        assert(paths_in(a, null) + paths_in(b, null) =~= paths_in(a, null));
    } else {
        assert((a + b).drop_last() =~= a + b.drop_last());
        law_every_piece_is_a_path(a, b.drop_last(), p, null);
        assert(paths_in(a + b, null) =~= paths_in(a, null) + paths_in(b, null));
    }
}

/// Every path at which there is something gives a record, in order, and no other
/// does. Its root is the directory that it is in, or the present one.
pub proof fn law_existing_paths_become_records(
    paths: Seq<Seq<u8>>,
    exists_now: Seq<bool>,
    p: Seq<u8>,
    there: bool,
)
    requires
        paths.len() == exists_now.len(),
    ensures
        records_for(paths.push(p), exists_now.push(there)) == if there {
            records_for(paths, exists_now).push(
                Found {
                    path: p,
                    root: if path::directory(p).len() > 0 {
                        path::directory(p)
                    } else {
                        seq![path::DOT]
                    },
                },
            )
        } else {
            records_for(paths, exists_now)
        },
        records_for(Seq::empty(), exists_now) == Seq::<Found>::empty(),
{
    lemma_records_depend_on_prefix(paths, exists_now, exists_now.push(there));
    assert(paths.push(p).drop_last() =~= paths);
}

proof fn lemma_records_depend_on_prefix(paths: Seq<Seq<u8>>, a: Seq<bool>, b: Seq<bool>)
    requires
        paths.len() <= a.len(),
        paths.len() <= b.len(),
        forall|i: int| 0 <= i < paths.len() ==> a[i] == b[i],
    ensures
        records_for(paths, a) == records_for(paths, b),
    decreases paths.len(),
{
    if paths.len() > 0 {
        lemma_records_depend_on_prefix(paths.drop_last(), a, b);
    }
}

} // verus!
