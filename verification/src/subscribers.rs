//! The list of those who want to hear of changes to a tree.
//!
//! A subscriber is known by a number. It may go away at any time:
//! the list is told, keeps the entry, and drops it the next time the
//! subscribers are called up.

use vstd::prelude::*;

use crate::error::TreeError;

verus! {

/// A subscriber as the list keeps it: its number, and whether it is still
/// there.
#[derive(Clone, Copy, Debug, PartialEq, Eq, Structural)]
pub struct Subscription {
    pub id: usize,
    pub alive: bool,
}

/// The entries of those subscribers that are still there, in order.
pub open spec fn still_there(entries: Seq<Subscription>) -> Seq<Subscription>
    decreases entries.len(),
{
    if entries.len() == 0 {
        entries
    } else if entries.last().alive {
        still_there(entries.drop_last()).push(entries.last())
    } else {
        still_there(entries.drop_last())
    }
}

/// The entries where the subscriber with the given number is gone.
pub open spec fn without(entries: Seq<Subscription>, id: usize) -> Seq<Subscription> {
    Seq::new(
        entries.len(),
        |i: int|
            if entries[i].id == id {
                Subscription { id, alive: false }
            } else {
                entries[i]
            },
    )
}

/// The numbers of the entries, in order.
pub open spec fn numbers(entries: Seq<Subscription>) -> Seq<usize> {
    Seq::new(entries.len(), |i: int| entries[i].id)
}

/// Those who want to hear of changes, in the order in which they came.
pub struct Subscribers {
    entries: Vec<Subscription>,
    next: usize,
}

impl View for Subscribers {
    type V = Seq<Subscription>;

    closed spec fn view(&self) -> Seq<Subscription> {
        self.entries@
    }
}

impl Subscribers {
    /// The number that the next subscriber gets.
    pub closed spec fn next_id(&self) -> usize {
        self.next
    }

    /// Every number in the list has been given out, and none of them twice.
    pub open spec fn wf(&self) -> bool {
        &&& forall|i: int| 0 <= i < self@.len() ==> (#[trigger] self@[i]).id < self.next_id()
        &&& forall|i: int, j: int|
            0 <= i < j < self@.len() ==> (#[trigger] self@[i]).id < (#[trigger] self@[j]).id
    }

    /// A list without subscribers.
    pub fn new() -> (list: Subscribers)
        ensures
            list.wf(),
            list@.len() == 0,
            list.next_id() == 0,
    {
        Subscribers { entries: Vec::new(), next: 0 }
    }

    /// Takes a new subscriber into the list and gives it a number that no
    /// subscriber had before. Fails when the numbers have run out.
    pub fn add(&mut self) -> (id: Result<usize, TreeError>)
        requires
            old(self).wf(),
        ensures
            final(self).wf(),
            old(self).next_id() < usize::MAX ==> {
                &&& id == Ok::<usize, TreeError>(old(self).next_id())
                &&& final(self)@ == old(self)@.push(
                    Subscription { id: old(self).next_id(), alive: true },
                )
                &&& final(self).next_id() == old(self).next_id() + 1
            },
            old(self).next_id() == usize::MAX ==> {
                &&& id == Err::<usize, TreeError>(TreeError::InvariantViolation)
                &&& final(self)@ == old(self)@
                &&& final(self).next_id() == old(self).next_id()
            },
    {
        if self.next == usize::MAX {
            return Err(TreeError::InvariantViolation);
        }
        let id = self.next;
        self.entries.push(Subscription { id, alive: true });
        self.next = id + 1;
        proof {
            assert forall|i: int| 0 <= i < self@.len() implies (#[trigger] self@[i]).id
                < self.next_id() by {
                if i < old(self)@.len() {
                }
            }
        }
        Ok(id)
    }

    /// Notes that the subscriber with the given number is gone. Its entry
    /// stays until the subscribers are called up the next time.
    pub fn remove(&mut self, id: usize)
        requires
            old(self).wf(),
        ensures
            final(self).wf(),
            final(self)@ == without(old(self)@, id),
            final(self).next_id() == old(self).next_id(),
    {
        let mut i: usize = 0;
        while i < self.entries.len()
            invariant
                i <= self.entries@.len(),
                self.entries@.len() == old(self)@.len(),
                self.next == old(self).next,
                forall|k: int| 0 <= k < i ==> self.entries@[k] == without(old(self)@, id)[k],
                forall|k: int| i <= k < self.entries@.len() ==> self.entries@[k] == old(self)@[k],
            decreases self.entries@.len() - i,
        {
            if self.entries[i].id == id {
                self.entries[i].alive = false;
            }
            i += 1;
        }
    }

    /// Calls up the subscribers: drops the entries of those that are gone,
    /// and returns the numbers of those that are still there, in the order
    /// in which they came.
    pub fn notify(&mut self) -> (called: Vec<usize>)
        requires
            old(self).wf(),
        ensures
            final(self).wf(),
            final(self)@ == still_there(old(self)@),
            called@ == numbers(still_there(old(self)@)),
            final(self).next_id() == old(self).next_id(),
    {
        let mut kept: Vec<Subscription> = Vec::new();
        let mut called: Vec<usize> = Vec::new();
        let mut i: usize = 0;
        while i < self.entries.len()
            invariant
                i <= self.entries@.len(),
                self.entries@ == old(self)@,
                self.next == old(self).next,
                old(self).wf(),
                kept@ == still_there(self.entries@.take(i as int)),
                called@ == numbers(kept@),
                forall|k: int|
                    0 <= k < kept@.len() ==> (#[trigger] kept@[k]).id < self.next && (i > 0
                        ==> kept@[k].id <= self.entries@[i - 1].id),
                forall|a: int, b: int|
                    0 <= a < b < kept@.len() ==> (#[trigger] kept@[a]).id < (#[trigger] kept@[b]).id,
            decreases self.entries@.len() - i,
        {
            let entry = self.entries[i];
            proof {
                assert(self.entries@.take(i + 1).drop_last() =~= self.entries@.take(i as int));
            }
            if entry.alive {
                kept.push(entry);
                called.push(entry.id);
            }
            i += 1;
        }
        proof {
            assert(self.entries@.take(self.entries@.len() as int) =~= self.entries@);
        }
        self.entries = kept;
        called
    }
}

} // verus!
