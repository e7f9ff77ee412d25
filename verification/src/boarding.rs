use crate::counter::count_in;
use crate::counter::distinct_dests;
use crate::counter::holds;
use crate::counter::is_tally;
use crate::counter::lemma_count_push;
use crate::counter::lemma_total_push;
use crate::counter::lemma_with_added;
use crate::counter::lemma_with_removed;
use crate::counter::slot_of;
use crate::counter::total_of;
use crate::counter::with_added;
use crate::counter::with_removed;
use vstd::prelude::*;

verus! {

/// The groups that board a bus with `room` free seats from a tally of waiting
/// passengers: the tally is walked in order, and each destination that the
/// route serves gets as many of its passengers aboard as still fit.
pub open spec fn boardable(waiting: Seq<(u64, u64)>, served: Seq<u64>, room: u64) -> Seq<
    (u64, u64),
>
    decreases waiting.len(),
{
    if waiting.len() == 0 {
        Seq::empty()
    } else {
        let before = boardable(waiting.drop_last(), served, room);
        let left = room - total_of(before);
        let group = waiting.last();
        if served.contains(group.0) && group.1 > 0 && left > 0 {
            before.push(
                (
                    group.0,
                    if group.1 <= left {
                        group.1
                    } else {
                        left as u64
                    },
                ),
            )
        } else {
            before
        }
    }
}

/// A tally after each of `groups` has joined it, in order.
pub open spec fn loaded(onboard: Seq<(u64, u64)>, groups: Seq<(u64, u64)>) -> Seq<(u64, u64)>
    decreases groups.len(),
{
    if groups.len() == 0 {
        onboard
    } else {
        with_added(loaded(onboard, groups.drop_last()), groups.last().0, groups.last().1)
    }
}

/// A tally after each of `groups` has left it, in order.
pub open spec fn unloaded(waiting: Seq<(u64, u64)>, groups: Seq<(u64, u64)>) -> Seq<(u64, u64)>
    decreases groups.len(),
{
    if groups.len() == 0 {
        waiting
    } else {
        with_removed(unloaded(waiting, groups.drop_last()), groups.last().0, groups.last().1)
    }
}

/// Somebody in the tally is bound for a stop that the route serves.
pub open spec fn any_served(waiting: Seq<(u64, u64)>, served: Seq<u64>) -> bool {
    exists|i: int|
        0 <= i < waiting.len() && served.contains((#[trigger] waiting[i]).0) && waiting[i].1 > 0
}

/// The boarding groups never take more seats than there is room, name only
/// served destinations, are never empty, and take from each destination no
/// more passengers than wait for it.
pub proof fn lemma_boardable(waiting: Seq<(u64, u64)>, served: Seq<u64>, room: u64)
    ensures
        total_of(boardable(waiting, served, room)) <= room,
        boardable(waiting, served, room).len() <= waiting.len(),
        forall|k: int|
            0 <= k < boardable(waiting, served, room).len() ==> {
                let group = #[trigger] boardable(waiting, served, room)[k];
                served.contains(group.0) && group.1 > 0 && holds(waiting, group.0)
            },
        forall|d: u64|
            #[trigger] count_in(boardable(waiting, served, room), d) <= count_in(waiting, d),
        forall|d: u64|
            !holds(waiting, d) ==> !#[trigger] holds(boardable(waiting, served, room), d),
    decreases waiting.len(),
{
    let taken = boardable(waiting, served, room);
    if waiting.len() > 0 {
        let front = waiting.drop_last();
        let before = boardable(front, served, room);
        lemma_boardable(front, served, room);
        assert forall|k: int|
            0 <= k < taken.len()
        implies
            served.contains((#[trigger] taken[k]).0) && taken[k].1 > 0 && holds(waiting, taken[k].0)
        by {
            if k < before.len() {
                let group = before[k];
                assert(taken[k] == group);
                let j = slot_of(front, group.0);
                assert(waiting[j].0 == group.0);
            } else {
                assert(waiting[waiting.len() - 1].0 == taken[k].0);
            }
        }
        assert forall|d: u64| count_in(taken, d) <= count_in(waiting, d) by {
            assert(count_in(before, d) <= count_in(front, d));
            if taken.len() > before.len() {
                lemma_count_push(before, taken.last(), d);
                assert(taken =~= before.push(taken.last()));
            }
        }
        assert forall|d: u64| !holds(waiting, d) implies !holds(taken, d) by {
            if holds(taken, d) {
                let k = slot_of(taken, d);
                assert(holds(waiting, taken[k].0));
            }
        }
        if taken.len() > before.len() {
            lemma_total_push(before, taken.last());
            assert(taken =~= before.push(taken.last()));
        }
    }
}

/// Boarding groups drawn from a tally form a tally themselves.
pub proof fn lemma_boardable_tally(waiting: Seq<(u64, u64)>, served: Seq<u64>, room: u64)
    requires
        distinct_dests(waiting),
    ensures
        is_tally(boardable(waiting, served, room)),
    decreases waiting.len(),
{
    let taken = boardable(waiting, served, room);
    lemma_boardable(waiting, served, room);
    if waiting.len() > 0 {
        let front = waiting.drop_last();
        let before = boardable(front, served, room);
        assert forall|i: int, j: int|
            0 <= i < j < front.len()
        implies
            (#[trigger] front[i]).0 != (#[trigger] front[j]).0
        by {
            assert(waiting[i].0 != waiting[j].0);
        }
        lemma_boardable_tally(front, served, room);
        lemma_boardable(front, served, room);
        if taken.len() > before.len() {
            let dest = waiting.last().0;
            assert(taken =~= before.push(taken.last()));
            assert(!holds(front, dest)) by {
                if holds(front, dest) {
                    let j = slot_of(front, dest);
                    assert(waiting[j].0 != waiting[waiting.len() - 1].0);
                }
            }
            assert(!holds(before, dest));
            assert forall|i: int, j: int|
                0 <= i < j < taken.len()
            implies
                (#[trigger] taken[i]).0 != (#[trigger] taken[j]).0
            by {
                if j == taken.len() - 1 {
                    assert(before[i].0 != dest);
                } else {
                    assert(before[i].0 != before[j].0);
                }
            }
        }
    }
}

/// Nobody boards exactly when the bus has no room or nobody waits for a stop
/// that the route serves.
pub proof fn lemma_boardable_empty(waiting: Seq<(u64, u64)>, served: Seq<u64>, room: u64)
    ensures
        boardable(waiting, served, room).len() == 0 <==> room == 0 || !any_served(waiting, served),
    decreases waiting.len(),
{
    let taken = boardable(waiting, served, room);
    if waiting.len() > 0 {
        let front = waiting.drop_last();
        let before = boardable(front, served, room);
        lemma_boardable_empty(front, served, room);
        lemma_boardable(front, served, room);
        let last = waiting.last();
        if any_served(front, served) {
            let i = choose|i: int|
                0 <= i < front.len() && served.contains((#[trigger] front[i]).0) && front[i].1 > 0;
            assert(served.contains(waiting[i].0) && waiting[i].1 > 0);
        }
        if any_served(waiting, served) && !any_served(front, served) {
            let i = choose|i: int|
                0 <= i < waiting.len() && served.contains((#[trigger] waiting[i]).0) && waiting[i].1
                    > 0;
            if i < front.len() {
                assert(served.contains(front[i].0) && front[i].1 > 0);
            }
            assert(i == waiting.len() - 1);
        }
        if served.contains(last.0) && last.1 > 0 {
            assert(served.contains(waiting[waiting.len() - 1].0));
        }
        if before.len() == 0 {
            assert(total_of(before) == 0);
        }
    } else {
    }
}

/// Taking a prefix of a list of groups never raises the total or a count.
pub proof fn lemma_prefix(groups: Seq<(u64, u64)>, n: int, dest: u64)
    requires
        0 <= n <= groups.len(),
    ensures
        total_of(groups.take(n)) <= total_of(groups),
        count_in(groups.take(n), dest) <= count_in(groups, dest),
    decreases groups.len() - n,
{
    if n < groups.len() {
        lemma_prefix(groups, n + 1, dest);
        assert(groups.take(n + 1).drop_last() =~= groups.take(n));
    } else {
        assert(groups.take(n) =~= groups);
    }
}

/// Loading groups onto a tally keeps it a tally and adds their passengers,
/// destination by destination.
pub proof fn lemma_loaded(onboard: Seq<(u64, u64)>, groups: Seq<(u64, u64)>)
    requires
        is_tally(onboard),
        total_of(onboard) + total_of(groups) <= u64::MAX,
    ensures
        is_tally(loaded(onboard, groups)),
        total_of(loaded(onboard, groups)) == total_of(onboard) + total_of(groups),
        forall|d: u64|
            #[trigger] count_in(loaded(onboard, groups), d) == count_in(onboard, d) + count_in(
                groups,
                d,
            ),
    decreases groups.len(),
{
    if groups.len() > 0 {
        let before = loaded(onboard, groups.drop_last());
        lemma_loaded(onboard, groups.drop_last());
        lemma_with_added(before, groups.last().0, groups.last().1);
    }
}

/// Unloading groups that a tally covers keeps it a tally and takes their
/// passengers off, destination by destination.
pub proof fn lemma_unloaded(waiting: Seq<(u64, u64)>, groups: Seq<(u64, u64)>)
    requires
        is_tally(waiting),
        forall|d: u64| count_in(groups, d) <= count_in(waiting, d),
    ensures
        is_tally(unloaded(waiting, groups)),
        total_of(unloaded(waiting, groups)) == total_of(waiting) - total_of(groups),
        forall|d: u64|
            #[trigger] count_in(unloaded(waiting, groups), d) == count_in(waiting, d) - count_in(
                groups,
                d,
            ),
    decreases groups.len(),
{
    if groups.len() > 0 {
        let front = groups.drop_last();
        let before = unloaded(waiting, front);
        let last = groups.last();
        assert forall|d: u64| count_in(front, d) <= count_in(waiting, d) by {
            assert(count_in(groups, d) <= count_in(waiting, d));
        }
        lemma_unloaded(waiting, front);
        assert(count_in(groups, last.0) <= count_in(waiting, last.0));
        assert(count_in(before, last.0) == count_in(waiting, last.0) - count_in(front, last.0));
        lemma_with_removed(before, last.0, last.1);
        assert forall|d: u64|
            #[trigger] count_in(unloaded(waiting, groups), d) == count_in(waiting, d) - count_in(
                groups,
                d,
            ) by {
            assert(count_in(before, d) == count_in(waiting, d) - count_in(front, d));
        }
    }
}

} // verus!
