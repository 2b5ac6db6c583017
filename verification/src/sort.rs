//! Sorting, by way of the order in which things are to be taken.

use vstd::prelude::*;

verus! {

/// A number of things, each known by its index, some of which are to come before
/// others.
pub trait Ranked {
    /// How many things there are.
    spec fn count(&self) -> nat;

    /// Whether the thing at `a` is to come before the one at `b`.
    spec fn precedes(&self, a: int, b: int) -> bool;

    /// Whether the thing at `a` is to come before the one at `b`. If it is, then
    /// not the other way round; whatever is to come before the one at `a` is to
    /// come before the one at `b` too; and everything is to come behind the one
    /// or before the other. If it is not, then whatever is to come before the one
    /// at `b` is to come before the one at `a` too.
    fn comes_before(&self, a: usize, b: usize) -> (first: bool)
        requires
            a < self.count(),
            b < self.count(),
        ensures
            first == self.precedes(a as int, b as int),
            first ==> !self.precedes(b as int, a as int),
            first ==> forall|c: int|
                0 <= c < self.count() ==> #[trigger] self.precedes(a as int, c) || self.precedes(
                    c,
                    b as int,
                ),
            first ==> forall|c: int|
                0 <= c < self.count() && #[trigger] self.precedes(c, a as int) ==> self.precedes(
                    c,
                    b as int,
                ),
            !first ==> forall|c: int|
                0 <= c < self.count() && #[trigger] self.precedes(c, b as int) ==> self.precedes(
                    c,
                    a as int,
                ),
    ;
}

/// Whether things are in order: none stands behind one that it is to come
/// before, and where neither is to come before the other, the order of the
/// indices is kept.
pub open spec fn in_order<R: Ranked>(things: &R, order: Seq<usize>) -> bool {
    forall|i: int, j: int|
        0 <= i < j < order.len() ==> follows(
            things,
            #[trigger] order[i] as int,
            #[trigger] order[j] as int,
        )
}

/// Whether the thing at `b` may stand behind the one at `a`.
pub open spec fn follows<R: Ranked>(things: &R, a: int, b: int) -> bool {
    !things.precedes(b, a) && (things.precedes(a, b) || a < b)
}

/// Whether an order takes each of the things from `lo` up to `hi` once, and
/// nothing else.
pub open spec fn takes_all(order: Seq<usize>, lo: int, hi: int) -> bool {
    &&& order.len() == hi - lo
    &&& order.no_duplicates()
    &&& forall|k: usize| #[trigger] order.contains(k) <==> lo <= k < hi
}

/// The order in which the things are to be taken.
pub fn sorted_order<R: Ranked>(things: &R, count: usize) -> (order: Vec<usize>)
    requires
        count == things.count(),
    ensures
        takes_all(order@, 0, count as int),
        in_order(things, order@),
{
    sort_range(things, 0, count)
}

fn sort_range<R: Ranked>(things: &R, lo: usize, hi: usize) -> (order: Vec<usize>)
    requires
        lo <= hi <= things.count(),
    ensures
        takes_all(order@, lo as int, hi as int),
        in_order(things, order@),
    decreases hi - lo,
{
    let mut order: Vec<usize> = Vec::new();
    if hi - lo == 0 {
        return order;
    }
    if hi - lo == 1 {
        order.push(lo);
        assert(order@ =~= seq![lo]);
        assert(order@[0] == lo);
        return order;
    }
    let mid: usize = lo + (hi - lo) / 2;
    let left = sort_range(things, lo, mid);
    let right = sort_range(things, mid, hi);
    merge(things, &left, &right, Ghost(lo as int), Ghost(mid as int), Ghost(hi as int))
}

/// Whether all in `order` may stand before all in `rest` from `from` on.
spec fn all_before<R: Ranked>(things: &R, order: Seq<usize>, rest: Seq<usize>, from: int) -> bool {
    forall|k: int, m: int|
        0 <= k < order.len() && from <= m < rest.len() ==> follows(
            things,
            #[trigger] order[k] as int,
            #[trigger] rest[m] as int,
        )
}

fn merge<R: Ranked>(
    things: &R,
    left: &Vec<usize>,
    right: &Vec<usize>,
    Ghost(lo): Ghost<int>,
    Ghost(mid): Ghost<int>,
    Ghost(hi): Ghost<int>,
) -> (order: Vec<usize>)
    requires
        0 <= lo <= mid <= hi <= things.count(),
        takes_all(left@, lo, mid),
        takes_all(right@, mid, hi),
        in_order(things, left@),
        in_order(things, right@),
    ensures
        takes_all(order@, lo, hi),
        in_order(things, order@),
{
    let mut order: Vec<usize> = Vec::new();
    let mut i: usize = 0;
    let mut j: usize = 0;
    while i < left.len() || j < right.len()
        invariant
            0 <= lo <= mid <= hi <= things.count(),
            takes_all(left@, lo, mid),
            takes_all(right@, mid, hi),
            in_order(things, left@),
            in_order(things, right@),
            in_order(things, order@),
            i <= left@.len(),
            j <= right@.len(),
            order@.len() == i + j,
            all_before(things, order@, left@, i as int),
            all_before(things, order@, right@, j as int),
            forall|k: int| 0 <= k < order@.len() ==> lo <= #[trigger] order@[k] < hi,
            forall|k: int| 0 <= k < i ==> order@.contains(#[trigger] left@[k]),
            forall|k: int| 0 <= k < j ==> order@.contains(#[trigger] right@[k]),
        decreases left@.len() - i + right@.len() - j,
    {
        proof {
            assert forall|m: int| 0 <= m < left@.len() implies lo <= #[trigger] left@[m] < mid by {
                assert(left@.contains(left@[m]));
            }
            assert forall|m: int| 0 <= m < right@.len() implies mid <= #[trigger] right@[m]
                < hi by {
                assert(right@.contains(right@[m]));
            }
        }
        let from_right = if j >= right.len() {
            false
        } else if i >= left.len() {
            true
        } else {
            things.comes_before(right[j], left[i])
        };
        let ghost before = order@;
        if from_right {
            proof {
                let taken = right@[j as int];
                assert forall|m: int| i <= m < left@.len() implies follows(
                    things,
                    taken as int,
                    #[trigger] left@[m] as int,
                ) by {
                    if m > i {
                        assert(follows(things, left@[i as int] as int, left@[m] as int));
                    }
                    assert(things.precedes(taken as int, left@[m] as int) || things.precedes(
                        left@[m] as int,
                        left@[i as int] as int,
                    ));
                }
            }
            order.push(right[j]);
            j = j + 1;
        } else {
            proof {
                let taken = left@[i as int];
                assert forall|m: int| j <= m < right@.len() implies follows(
                    things,
                    taken as int,
                    #[trigger] right@[m] as int,
                ) by {
                    if m > j {
                        assert(follows(things, right@[j as int] as int, right@[m] as int));
                    }
                }
            }
            order.push(left[i]);
            i = i + 1;
        }
        proof {
            assert forall|k: usize| before.contains(k) implies order@.contains(k) by {
                let m = choose|m: int| 0 <= m < before.len() && before[m] == k;
                assert(order@[m] == k);
            }
            assert(order@[order@.len() - 1] == order@.last());
            assert(order@.contains(order@.last()));
        }
    }
    proof {
        assert forall|k: usize| #[trigger] order@.contains(k) <==> lo <= k < hi by {
            if order@.contains(k) {
                let m = choose|m: int| 0 <= m < order@.len() && order@[m] == k;
                assert(lo <= order@[m] < hi);
            }
            if lo <= k < mid {
                assert(left@.contains(k));
                let m = choose|m: int| 0 <= m < left@.len() && left@[m] == k;
                assert(order@.contains(left@[m]));
            }
            if mid <= k < hi {
                assert(right@.contains(k));
                let m = choose|m: int| 0 <= m < right@.len() && right@[m] == k;
                assert(order@.contains(right@[m]));
            }
        }
    }
    order
}

} // verus!
