use crate::error::SimError;
use vstd::prelude::*;

verus! {

/// Sum of the counts of a list of (destination, count) groups.
pub open spec fn total_of(groups: Seq<(u64, u64)>) -> nat
    decreases groups.len(),
{
    if groups.len() == 0 {
        0
    } else {
        total_of(groups.drop_last()) + groups.last().1 as nat
    }
}

/// Number of passengers that a list of groups holds for `dest`.
pub open spec fn count_in(groups: Seq<(u64, u64)>, dest: u64) -> nat
    decreases groups.len(),
{
    if groups.len() == 0 {
        0
    } else if groups.last().0 == dest {
        count_in(groups.drop_last(), dest) + groups.last().1 as nat
    } else {
        count_in(groups.drop_last(), dest)
    }
}

/// Some group of the list is bound for `dest`.
pub open spec fn holds(groups: Seq<(u64, u64)>, dest: u64) -> bool {
    exists|i: int| 0 <= i < groups.len() && (#[trigger] groups[i]).0 == dest
}

/// Position of a group bound for `dest`; meaningful where `holds(groups, dest)`.
pub open spec fn slot_of(groups: Seq<(u64, u64)>, dest: u64) -> int {
    choose|i: int| 0 <= i < groups.len() && (#[trigger] groups[i]).0 == dest
}

/// No two groups of the list share a destination.
pub open spec fn distinct_dests(groups: Seq<(u64, u64)>) -> bool {
    forall|i: int, j: int|
        0 <= i < j < groups.len() ==> (#[trigger] groups[i]).0 != (#[trigger] groups[j]).0
}

/// A tally is a list of groups with one group per destination, no empty
/// group, and a total that fits the machine word.
pub open spec fn is_tally(groups: Seq<(u64, u64)>) -> bool {
    &&& distinct_dests(groups)
    &&& forall|i: int| 0 <= i < groups.len() ==> (#[trigger] groups[i]).1 > 0
    &&& total_of(groups) <= u64::MAX
}

/// The tally after `n` more passengers for `dest` have joined it: an existing
/// group grows in place, a new destination is appended.
pub open spec fn with_added(groups: Seq<(u64, u64)>, dest: u64, n: u64) -> Seq<(u64, u64)> {
    if n == 0 {
        groups
    } else if holds(groups, dest) {
        let i = slot_of(groups, dest);
        groups.update(i, (dest, (groups[i].1 + n) as u64))
    } else {
        groups.push((dest, n))
    }
}

/// The tally after `n` passengers for `dest` have left it: the group shrinks
/// in place and disappears when nobody is left in it.
pub open spec fn with_removed(groups: Seq<(u64, u64)>, dest: u64, n: u64) -> Seq<(u64, u64)> {
    if n == 0 || !holds(groups, dest) {
        groups
    } else {
        let i = slot_of(groups, dest);
        if groups[i].1 <= n {
            groups.remove(i)
        } else {
            groups.update(i, (dest, (groups[i].1 - n) as u64))
        }
    }
}

/// Appending a group adds its count to the total.
pub proof fn lemma_total_push(groups: Seq<(u64, u64)>, group: (u64, u64))
    ensures
        total_of(groups.push(group)) == total_of(groups) + group.1,
{
    assert(groups.push(group).drop_last() =~= groups);
}

/// Appending a group adds its count to the count of its own destination only.
pub proof fn lemma_count_push(groups: Seq<(u64, u64)>, group: (u64, u64), dest: u64)
    ensures
        count_in(groups.push(group), dest) == count_in(groups, dest) + if group.0 == dest {
            group.1 as nat
        } else {
            0
        },
{
    assert(groups.push(group).drop_last() =~= groups);
}

/// Replacing the count of one group changes the total by the difference.
pub proof fn lemma_total_update(groups: Seq<(u64, u64)>, i: int, group: (u64, u64))
    requires
        0 <= i < groups.len(),
    ensures
        total_of(groups.update(i, group)) == total_of(groups) - groups[i].1 + group.1,
    decreases groups.len(),
{
    let updated = groups.update(i, group);
    if i == groups.len() - 1 {
        assert(updated.drop_last() =~= groups.drop_last());
    } else {
        lemma_total_update(groups.drop_last(), i, group);
        assert(updated.drop_last() =~= groups.drop_last().update(i, group));
    }
}

/// Taking one group out lowers the total by its count.
pub proof fn lemma_total_remove(groups: Seq<(u64, u64)>, i: int)
    requires
        0 <= i < groups.len(),
    ensures
        total_of(groups.remove(i)) == total_of(groups) - groups[i].1,
    decreases groups.len(),
{
    let removed = groups.remove(i);
    if i == groups.len() - 1 {
        assert(removed =~= groups.drop_last());
    } else {
        lemma_total_remove(groups.drop_last(), i);
        assert(removed.drop_last() =~= groups.drop_last().remove(i));
        assert(removed.last() == groups.last());
    }
}

/// A destination that no group is bound for has count zero.
pub proof fn lemma_count_absent(groups: Seq<(u64, u64)>, dest: u64)
    requires
        !holds(groups, dest),
    ensures
        count_in(groups, dest) == 0,
    decreases groups.len(),
{
    if groups.len() > 0 {
        assert(groups[groups.len() - 1].0 != dest);
        assert forall|i: int|
            0 <= i < groups.drop_last().len()
        implies
            (#[trigger] groups.drop_last()[i]).0 != dest
        by {
            assert(groups[i].0 != dest);
        }
        lemma_count_absent(groups.drop_last(), dest);
    }
}

/// With one group per destination, the count for a destination is the count
/// of its group.
pub proof fn lemma_count_at(groups: Seq<(u64, u64)>, i: int)
    requires
        distinct_dests(groups),
        0 <= i < groups.len(),
    ensures
        count_in(groups, groups[i].0) == groups[i].1,
    decreases groups.len(),
{
    let dest = groups[i].0;
    let front = groups.drop_last();
    if i == groups.len() - 1 {
        assert forall|k: int| 0 <= k < front.len() implies (#[trigger] front[k]).0 != dest by {
            assert(groups[k].0 != groups[groups.len() - 1].0);
        }
        lemma_count_absent(front, dest);
    } else {
        assert(groups[i].0 != groups[groups.len() - 1].0);
        assert(front[i] == groups[i]);
        lemma_count_at(front, i);
    }
}

/// In a tally, a destination has a group exactly when its count is positive.
pub proof fn lemma_holds_iff_counted(groups: Seq<(u64, u64)>, dest: u64)
    requires
        is_tally(groups),
    ensures
        holds(groups, dest) <==> count_in(groups, dest) > 0,
        holds(groups, dest) ==> count_in(groups, dest) == groups[slot_of(groups, dest)].1,
{
    if holds(groups, dest) {
        lemma_count_at(groups, slot_of(groups, dest));
    } else {
        lemma_count_absent(groups, dest);
    }
}

/// Replacing one group leaves the counts of the other destinations alone and
/// sets the count of its own.
pub proof fn lemma_count_update(groups: Seq<(u64, u64)>, i: int, n: u64, dest: u64)
    requires
        0 <= i < groups.len(),
    ensures
        count_in(groups.update(i, (groups[i].0, n)), dest) == if groups[i].0 == dest {
            count_in(groups, dest) - groups[i].1 + n
        } else {
            count_in(groups, dest) as int
        },
    decreases groups.len(),
{
    let updated = groups.update(i, (groups[i].0, n));
    if i == groups.len() - 1 {
        assert(updated.drop_last() =~= groups.drop_last());
    } else {
        lemma_count_update(groups.drop_last(), i, n, dest);
        assert(updated.drop_last() =~= groups.drop_last().update(i, (groups[i].0, n)));
    }
}

/// Taking one group out lowers the count of its destination and no other.
pub proof fn lemma_count_remove(groups: Seq<(u64, u64)>, i: int, dest: u64)
    requires
        0 <= i < groups.len(),
    ensures
        count_in(groups.remove(i), dest) == if groups[i].0 == dest {
            count_in(groups, dest) - groups[i].1
        } else {
            count_in(groups, dest) as int
        },
    decreases groups.len(),
{
    let removed = groups.remove(i);
    if i == groups.len() - 1 {
        assert(removed =~= groups.drop_last());
    } else {
        lemma_count_remove(groups.drop_last(), i, dest);
        assert(removed.drop_last() =~= groups.drop_last().remove(i));
        assert(removed.last() == groups.last());
    }
}

/// No destination accounts for more passengers than the whole list.
pub proof fn lemma_count_le_total(groups: Seq<(u64, u64)>, dest: u64)
    ensures
        count_in(groups, dest) <= total_of(groups),
    decreases groups.len(),
{
    if groups.len() > 0 {
        lemma_count_le_total(groups.drop_last(), dest);
    }
}

/// Adding passengers to a tally keeps it a tally, raises the total and the
/// count of the destination by `n`, and leaves every other count alone.
pub proof fn lemma_with_added(groups: Seq<(u64, u64)>, dest: u64, n: u64)
    requires
        is_tally(groups),
        total_of(groups) + n <= u64::MAX,
    ensures
        is_tally(with_added(groups, dest, n)),
        total_of(with_added(groups, dest, n)) == total_of(groups) + n,
        forall|d: u64|
            #[trigger] count_in(with_added(groups, dest, n), d) == count_in(groups, d) + if d
                == dest {
                n as nat
            } else {
                0
            },
{
    let after = with_added(groups, dest, n);
    if n == 0 {
    } else if holds(groups, dest) {
        let i = slot_of(groups, dest);
        lemma_count_at(groups, i);
        lemma_count_le_total(groups, dest);
        lemma_total_update(groups, i, (dest, (groups[i].1 + n) as u64));
        assert forall|d: u64| count_in(after, d) == count_in(groups, d) + if d == dest {
            n as nat
        } else {
            0
        } by {
            lemma_count_update(groups, i, (groups[i].1 + n) as u64, d);
        }
    } else {
        lemma_total_push(groups, (dest, n));
        assert forall|d: u64| count_in(after, d) == count_in(groups, d) + if d == dest {
            n as nat
        } else {
            0
        } by {
            lemma_count_push(groups, (dest, n), d);
        }
    }
}

/// Removing passengers that a tally holds keeps it a tally, lowers the total
/// and the count of the destination by `n`, and leaves every other count alone.
pub proof fn lemma_with_removed(groups: Seq<(u64, u64)>, dest: u64, n: u64)
    requires
        is_tally(groups),
        n <= count_in(groups, dest),
    ensures
        is_tally(with_removed(groups, dest, n)),
        total_of(with_removed(groups, dest, n)) == total_of(groups) - n,
        forall|d: u64|
            #[trigger] count_in(with_removed(groups, dest, n), d) == count_in(groups, d) - if d
                == dest {
                n as nat
            } else {
                0
            },
{
    let after = with_removed(groups, dest, n);
    lemma_holds_iff_counted(groups, dest);
    if n == 0 || !holds(groups, dest) {
    } else {
        let i = slot_of(groups, dest);
        if groups[i].1 <= n {
            lemma_total_remove(groups, i);
            assert forall|d: u64| count_in(after, d) == count_in(groups, d) - if d == dest {
                n as nat
            } else {
                0
            } by {
                lemma_count_remove(groups, i, d);
            }
        } else {
            lemma_total_update(groups, i, (dest, (groups[i].1 - n) as u64));
            assert forall|d: u64| count_in(after, d) == count_in(groups, d) - if d == dest {
                n as nat
            } else {
                0
            } by {
                lemma_count_update(groups, i, (groups[i].1 - n) as u64, d);
            }
        }
    }
}

/// Passengers counted by destination.
///
/// The counter keeps one group per destination, in the order in which the
/// destinations were first seen, and never keeps an empty group.
pub struct PaxCounter {
    groups: Vec<(u64, u64)>,
    total: u64,
}

impl View for PaxCounter {
    type V = Seq<(u64, u64)>;

    closed spec fn view(&self) -> Seq<(u64, u64)> {
        self.groups@
    }
}

impl PaxCounter {
    /// The cached total is the sum of the groups.
    pub closed spec fn cached(&self) -> bool {
        self.total == total_of(self.groups@)
    }

    /// The groups form a tally and the cached total is their sum.
    pub open spec fn wf(&self) -> bool {
        &&& is_tally(self@)
        &&& self.cached()
    }

    /// A counter that holds nobody.
    pub fn new() -> (counter: PaxCounter)
        ensures
            counter.wf(),
            counter@ == Seq::<(u64, u64)>::empty(),
    {
        PaxCounter { groups: Vec::new(), total: 0 }
    }

    /// Number of passengers of all destinations together.
    pub fn total(&self) -> (n: u64)
        requires
            self.wf(),
        ensures
            n == total_of(self@),
    {
        self.total
    }

    /// Number of destinations that somebody is bound for.
    pub fn len(&self) -> (n: usize)
        ensures
            n == self@.len(),
    {
        self.groups.len()
    }

    /// The group at position `i`, as (destination, count).
    pub fn group(&self, i: usize) -> (g: (u64, u64))
        requires
            i < self@.len(),
        ensures
            g == self@[i as int],
    {
        self.groups[i]
    }

    /// Position of the group bound for `dest`, if there is one.
    fn find(&self, dest: u64) -> (slot: Option<usize>)
        requires
            self.wf(),
        ensures
            slot is Some <==> holds(self@, dest),
            slot matches Some(i) ==> i == slot_of(self@, dest) && i < self@.len(),
    {
        let mut i: usize = 0;
        while i < self.groups.len()
            invariant
                self.wf(),
                i <= self.groups@.len(),
                forall|k: int| 0 <= k < i ==> (#[trigger] self.groups@[k]).0 != dest,
            decreases self.groups@.len() - i,
        {
            if self.groups[i].0 == dest {
                proof {
                    let j = slot_of(self@, dest);
                    assert(self@[i as int].0 == dest);
                    if j < i {
                        assert(self@[j].0 != self@[i as int].0);
                    } else if i < j {
                        assert(self@[i as int].0 != self@[j].0);
                    }
                }
                return Some(i);
            }
            i += 1;
        }
        None
    }

    /// Number of passengers bound for `dest`; zero if there are none.
    pub fn count(&self, dest: u64) -> (n: u64)
        requires
            self.wf(),
        ensures
            n == count_in(self@, dest),
    {
        proof {
            lemma_holds_iff_counted(self@, dest);
        }
        match self.find(dest) {
            Some(i) => self.groups[i].1,
            None => 0,
        }
    }

    /// Counts `n` more passengers for `dest`.
    pub fn add(&mut self, dest: u64, n: u64)
        requires
            old(self).wf(),
            total_of(old(self)@) + n <= u64::MAX,
        ensures
            final(self).wf(),
            final(self)@ == with_added(old(self)@, dest, n),
    {
        proof {
            lemma_with_added(self@, dest, n);
        }
        if n == 0 {
            return ;
        }
        match self.find(dest) {
            Some(i) => {
                proof {
                    lemma_count_at(self@, i as int);
                    lemma_count_le_total(self@, dest);
                }
                let grown: u64 = self.groups[i].1 + n;
                self.groups[i] = (dest, grown);
            },
            None => {
                self.groups.push((dest, n));
            },
        }
        self.total = self.total + n;
    }

    /// Counts `n` more passengers for `dest` unless that would bring the
    /// total over `limit`; then nothing changes and the limit is reported.
    pub fn add_within(&mut self, dest: u64, n: u64, limit: u64) -> (outcome: Result<(), SimError>)
        requires
            old(self).wf(),
        ensures
            final(self).wf(),
            outcome is Ok <==> total_of(old(self)@) + n <= limit,
            outcome is Err ==> outcome == Err::<(), SimError>(SimError::CapacityExceeded)
                && final(self)@ == old(self)@,
            outcome is Ok ==> final(self)@ == with_added(old(self)@, dest, n),
    {
        if self.total > limit || n > limit - self.total {
            Err(SimError::CapacityExceeded)
        } else {
            self.add(dest, n);
            Ok(())
        }
    }

    /// Takes every passenger for `dest` off the count and says how many
    /// there were.
    pub fn remove_all(&mut self, dest: u64) -> (n: u64)
        requires
            old(self).wf(),
        ensures
            final(self).wf(),
            n == count_in(old(self)@, dest),
            final(self)@ == with_removed(old(self)@, dest, n),
    {
        let n: u64 = self.count(dest);
        let _done: bool = self.remove(dest, n);
        n
    }

    /// Takes `n` passengers for `dest` off the count, if that many are
    /// counted; otherwise changes nothing and says so.
    pub fn remove(&mut self, dest: u64, n: u64) -> (done: bool)
        requires
            old(self).wf(),
        ensures
            final(self).wf(),
            done <==> n <= count_in(old(self)@, dest),
            done ==> final(self)@ == with_removed(old(self)@, dest, n),
            !done ==> final(self)@ == old(self)@,
    {
        proof {
            lemma_holds_iff_counted(self@, dest);
        }
        if n == 0 {
            return true;
        }
        match self.find(dest) {
            Some(i) => {
                let had: u64 = self.groups[i].1;
                if had < n {
                    return false;
                }
                proof {
                    lemma_with_removed(self@, dest, n);
                    lemma_count_le_total(self@, dest);
                }
                if had == n {
                    self.groups.remove(i);
                } else {
                    self.groups[i] = (dest, had - n);
                }
                self.total = self.total - n;
                true
            },
            None => false,
        }
    }
}

} // verus!
