use vstd::prelude::*;
use crate::done::DoneSet;
use crate::graph::{add_trace, Graph};

verus! {

/// The first position at or after `from` whose target is not done yet, or
/// `targets.len()` when every remaining target is done. Done targets before it
/// are skipped without being traced.
pub fn next_pending(done: &DoneSet, targets: &Vec<u32>, from: usize) -> (r: usize)
    requires
        from <= targets@.len(),
    ensures
        from <= r <= targets@.len(),
        forall|k: int| from <= k < r ==> done@.contains(#[trigger] targets@[k]),
        r < targets@.len() ==> !done@.contains(targets@[r as int]),
{
    let mut i = from;
    while i < targets.len() && done.is_done(targets[i])
        invariant
            from <= i <= targets@.len(),
            forall|k: int| from <= k < i ==> done@.contains(#[trigger] targets@[k]),
        decreases targets@.len() - i,
    {
        i = i + 1;
    }
    i
}

/// Settles one traced target: on success (`Some(hops)`) its hops are added to
/// the graph and the target is marked done; on failure nothing changes, so the
/// target stays eligible for a later run.
pub fn settle_target(graph: &mut Graph, done: &mut DoneSet, target: u32, outcome: Option<&Vec<u32>>)
    requires
        old(graph).wf(),
        old(done).wf(),
    ensures
        final(graph).wf(),
        final(done).wf(),
        match outcome {
            Some(hops) => final(graph)@ == add_trace(old(graph)@, target, hops@)
                && final(done)@ == old(done)@.insert(target),
            None => final(graph)@ == old(graph)@ && final(done)@ == old(done)@,
        },
{
    match outcome {
        Some(hops) => {
            graph.record_trace(target, hops);
            done.mark_done(target);
        },
        None => {},
    }
}

/// A target that was done before a run is never the one handed out for
/// tracing during it, since the done-set only grows meanwhile.
pub proof fn lemma_skip_on_done(before: Set<u32>, during: Set<u32>, targets: Seq<u32>, r: int, t: u32)
    requires
        before.contains(t),
        before.subset_of(during),
        0 <= r < targets.len(),
        !during.contains(targets[r]),
    ensures
        targets[r] != t,
{
}

} // verus!
