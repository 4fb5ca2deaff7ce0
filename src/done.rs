use vstd::prelude::*;
use std::collections::HashSet;

verus! {

broadcast use vstd::std_specs::hash::group_hash_axioms;

/// The set of targets whose trace has completed at least once. Membership only
/// grows; `addresses` keeps the order in which targets were first marked.
pub struct DoneSet {
    members: HashSet<u32>,
    order: Vec<u32>,
}

impl View for DoneSet {
    type V = Set<u32>;

    closed spec fn view(&self) -> Set<u32> {
        self.members@
    }
}

impl DoneSet {
    /// Internal consistency: `order` lists each member exactly once.
    pub closed spec fn wf(&self) -> bool {
        &&& self.order@.no_duplicates()
        &&& self.order@.to_set() == self.members@
    }

    pub fn new() -> (r: DoneSet)
        ensures
            r.wf(),
            r@ == Set::<u32>::empty(),
    {
        let r = DoneSet { members: HashSet::new(), order: Vec::new() };
        assert(r.order@.to_set() =~= Set::<u32>::empty());
        r
    }

    /// Whether `target` has been marked done.
    pub fn is_done(&self, target: u32) -> (r: bool)
        ensures
            r == self@.contains(target),
    {
        self.members.contains(&target)
    }

    /// Records `target` as done; marking it again changes nothing.
    pub fn mark_done(&mut self, target: u32)
        requires
            old(self).wf(),
        ensures
            final(self).wf(),
            final(self)@ == old(self)@.insert(target),
    {
        if !self.members.contains(&target) {
            proof {
                assert(!self.order@.contains(target)) by {
                    if self.order@.contains(target) {
                        assert(self.order@.to_set().contains(target));
                    }
                }
            }
            self.members.insert(target);
            self.order.push(target);
            proof {
                assert(self.order@.to_set() =~= self.members@) by {
                    assert forall|x: u32| self.order@.to_set().contains(x) <==> self.members@.contains(x) by {
                        if self.order@.contains(x) && x != target {
                            let i = choose|i: int| 0 <= i < self.order@.len() && self.order@[i] == x;
                            assert(self.order@.drop_last()[i] == x);
                        }
                        if x == target {
                            assert(self.order@[self.order@.len() - 1] == x);
                        }
                        if old(self).order@.contains(x) {
                            let i = choose|i: int| 0 <= i < old(self).order@.len() && old(self).order@[i] == x;
                            assert(self.order@[i] == x);
                        }
                    }
                }
            }
        }
        assert(self@ =~= old(self)@.insert(target));
    }

    /// Every member, each once, in the order in which it was first marked.
    pub fn addresses(&self) -> (r: &Vec<u32>)
        requires
            self.wf(),
        ensures
            r@.no_duplicates(),
            r@.to_set() == self@,
    {
        &self.order
    }
}

/// Once a target is marked done it stays done, and marking it again leaves the
/// set as it was.
pub proof fn lemma_completion_idempotent(d: DoneSet, t: u32)
    ensures
        d@.insert(t).contains(t),
        d@.insert(t).insert(t) == d@.insert(t),
        d@.subset_of(d@.insert(t)),
{
    assert(d@.insert(t).insert(t) =~= d@.insert(t));
}

} // verus!
