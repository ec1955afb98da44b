//! The pending runs, earliest first.

use crate::run::Run;
use vstd::multiset::Multiset;
use vstd::prelude::*;
use vstd::seq_lib::{to_multiset_insert, to_multiset_remove};

verus! {

/// Every run of the list is emitted no later than those that stand before it.
pub open spec fn latest_first(runs: Seq<Run>) -> bool {
    forall|i: int, j: int| 0 <= i < j < runs.len() ==> runs[j].not_after(runs[i])
}

/// A priority queue of runs that hands out the earliest one first.
#[derive(Debug)]
pub struct RunQueue<'a> {
    items: Vec<Run<'a>>,
}

impl<'a> View for RunQueue<'a> {
    type V = Multiset<Run<'a>>;

    /// The pending runs, each as often as it was pushed.
    closed spec fn view(&self) -> Multiset<Run<'a>> {
        self.items@.to_multiset()
    }
}

impl<'a> RunQueue<'a> {
    /// The runs are kept in the order in which they leave.
    pub closed spec fn wf(self) -> bool {
        latest_first(self.items@)
    }

    /// The run that leaves next, if any is pending.
    pub closed spec fn upcoming(self) -> Option<Run<'a>> {
        if self.items@.len() == 0 {
            None
        } else {
            Some(self.items@.last())
        }
    }

    /// The run that leaves next is a pending one, and none of the others is
    /// emitted before it. Only an empty queue has no such run.
    pub proof fn lemma_upcoming(self)
        requires
            self.wf(),
        ensures
            match self.upcoming() {
                Some(run) => self@.count(run) > 0 && forall|other: Run<'a>|
                    self@.count(other) > 0 ==> run.not_after(other),
                None => self@ == Multiset::<Run<'a>>::empty(),
            },
            self@.len() == 0 <==> self.upcoming() is None,
    {
        broadcast use vstd::seq_lib::group_to_multiset_ensures;

        if self.items@.len() == 0 {
            assert(self@ =~= Multiset::<Run<'a>>::empty());
        } else {
            let run = self.items@.last();
            assert(self.items@.contains(run));
            assert forall|other: Run<'a>| self@.count(other) > 0 implies run.not_after(other) by {
                assert(self.items@.contains(other));
                let i = choose|i: int| 0 <= i < self.items@.len() && self.items@[i] == other;
                if i < self.items@.len() - 1 {
                    assert(self.items@[self.items@.len() - 1].not_after(self.items@[i]));
                }
            }
        }
    }

    /// An empty queue.
    pub fn new() -> (r: RunQueue<'a>)
        ensures
            r.wf(),
            r@ == Multiset::<Run<'a>>::empty(),
            r.upcoming() is None,
    {
        let r = RunQueue { items: Vec::new() };
        proof {
            r.lemma_upcoming();
        }
        r
    }

    /// How many runs are pending.
    pub fn len(&self) -> (n: usize)
        ensures
            n == self@.len(),
    {
        broadcast use vstd::seq_lib::group_to_multiset_ensures;

        self.items.len()
    }

    /// The run that leaves next, if any is pending.
    pub fn peek(&self) -> (r: Option<&Run<'a>>)
        ensures
            match r {
                Some(run) => self.upcoming() == Some(*run),
                None => self.upcoming() is None,
            },
    {
        if self.items.len() == 0 {
            None
        } else {
            Some(&self.items[self.items.len() - 1])
        }
    }

    /// Adds a pending run.
    pub fn push(&mut self, run: Run<'a>)
        requires
            old(self).wf(),
        ensures
            final(self).wf(),
            final(self)@ == old(self)@.insert(run),
    {
        let mut at: usize = self.items.len();
        while at > 0 && self.items[at - 1].precedes(&run)
            invariant
                at <= self.items@.len(),
                forall|k: int| at <= k < self.items@.len() ==> self.items@[k].before(run),
            decreases at,
        {
            at -= 1;
        }
        proof {
            let before = self.items@;
            let after = before.insert(at as int, run);
            to_multiset_insert(before, at as int, run);
            assert forall|i: int, j: int| 0 <= i < j < after.len() implies after[j].not_after(
                after[i],
            ) by {
                if j == at {
                    run.lemma_order_total(before[at - 1]);
                    if i < at - 1 {
                        run.lemma_order_transitive(before[at - 1], before[i]);
                    }
                } else if i == at {
                    assert(after[j] == before[j - 1]);
                } else if i < at && at < j {
                    assert(after[j] == before[j - 1]);
                    assert(before[j - 1].not_after(before[i]));
                } else if j < at {
                    assert(before[j].not_after(before[i]));
                } else {
                    assert(after[j] == before[j - 1] && after[i] == before[i - 1]);
                    assert(before[j - 1].not_after(before[i - 1]));
                }
            }
        }
        self.items.insert(at, run);
    }

    /// Takes out the run that leaves next, if any is pending.
    pub fn pop(&mut self) -> (r: Option<Run<'a>>)
        requires
            old(self).wf(),
        ensures
            final(self).wf(),
            r == old(self).upcoming(),
            match r {
                Some(run) => final(self)@ == old(self)@.remove(run),
                None => final(self)@ == old(self)@,
            },
    {
        proof {
            let before = self.items@;
            if before.len() > 0 {
                to_multiset_remove(before, before.len() - 1);
                assert(before.remove(before.len() - 1) =~= before.drop_last());
            }
        }
        self.items.pop()
    }
}

} // verus!
