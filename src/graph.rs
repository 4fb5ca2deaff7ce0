use vstd::prelude::*;
use std::collections::HashMap;

verus! {

broadcast use vstd::std_specs::hash::group_hash_axioms;

/// Traversal counts of a graph, keyed by `(child, parent)`.
pub type EdgeCounts = Map<(u32, u32), u64>;

/// The count after one more traversal: one more than before, held at the
/// largest `u64`.
pub open spec fn next_count(n: u64) -> u64 {
    if n < u64::MAX { (n + 1) as u64 } else { n }
}

/// The traversal count of `(child, parent)`, zero where the edge is absent.
pub open spec fn count_of(g: EdgeCounts, child: u32, parent: u32) -> nat {
    if g.contains_key((child, parent)) { g[(child, parent)] as nat } else { 0 }
}

/// `g` after one more traversal of the edge from `parent` to `child`.
pub open spec fn bump(g: EdgeCounts, child: u32, parent: u32) -> EdgeCounts {
    g.insert((child, parent), if g.contains_key((child, parent)) { next_count(g[(child, parent)]) } else { 1 })
}

/// `g` after walking `hops` in order, starting from `prev`: each hop is a
/// child whose parent is the address before it.
pub open spec fn add_trace(g: EdgeCounts, prev: u32, hops: Seq<u32>) -> EdgeCounts
    decreases hops.len(),
{
    if hops.len() == 0 {
        g
    } else {
        add_trace(bump(g, hops[0], prev), hops[0], hops.drop_first())
    }
}

/// The counts that a list of `(child, parent, count)` records describe; a later
/// record for the same edge wins, and a zero count is ignored.
pub open spec fn load_map(es: Seq<(u32, u32, u64)>) -> EdgeCounts
    decreases es.len(),
{
    if es.len() == 0 {
        Map::empty()
    } else {
        let m = load_map(es.drop_last());
        let e = es.last();
        if e.2 > 0 { m.insert((e.0, e.1), e.2) } else { m }
    }
}

/// Every count of `a` is in `b`, and not smaller there.
pub open spec fn grows_to(a: EdgeCounts, b: EdgeCounts) -> bool {
    forall|e: (u32, u32)| #[trigger] a.contains_key(e) ==> b.contains_key(e) && a[e] <= b[e]
}

/// The weighted adjacency of observed hops: for each child address, the
/// parents it was reached from and how many times.
pub struct Graph {
    counts: HashMap<u32, HashMap<u32, u64>>,
    order: Vec<(u32, u32)>,
}

impl View for Graph {
    type V = EdgeCounts;

    closed spec fn view(&self) -> EdgeCounts {
        Map::new(|e: (u32, u32)| self.has(e.0, e.1), |e: (u32, u32)| self.counts@[e.0]@[e.1])
    }
}

impl Graph {
    closed spec fn has(&self, child: u32, parent: u32) -> bool {
        self.counts@.contains_key(child) && self.counts@[child]@.contains_key(parent)
    }

    /// Internal consistency: `order` lists each edge once, and every count is
    /// at least one.
    pub closed spec fn wf(&self) -> bool {
        &&& self.order@.no_duplicates()
        &&& forall|i: int| 0 <= i < self.order@.len() ==> self.has(#[trigger] self.order@[i].0, self.order@[i].1)
        &&& forall|c: u32, p: u32| #[trigger] self.has(c, p) ==> self.order@.contains((c, p))
        &&& forall|c: u32, p: u32| #[trigger] self.has(c, p) ==> self.counts@[c]@[p] >= 1
    }

    pub proof fn lemma_counts_positive(&self)
        requires
            self.wf(),
        ensures
            forall|e: (u32, u32)| #[trigger] self@.contains_key(e) ==> self@[e] >= 1,
    {
        assert forall|e: (u32, u32)| #[trigger] self@.contains_key(e) implies self@[e] >= 1 by {
            assert(self.has(e.0, e.1));
        }
    }

    pub fn new() -> (r: Graph)
        ensures
            r.wf(),
            r@ == EdgeCounts::empty(),
    {
        let r = Graph { counts: HashMap::new(), order: Vec::new() };
        assert(r@ =~= EdgeCounts::empty());
        r
    }

    /// The traversal count of the edge from `parent` to `child`, zero if absent.
    pub fn count(&self, child: u32, parent: u32) -> (r: u64)
        ensures
            r as nat == count_of(self@, child, parent),
    {
        match self.counts.get(&child) {
            Some(inner) => match inner.get(&parent) {
                Some(n) => *n,
                None => 0,
            },
            None => 0,
        }
    }

    /// Sets the count of an edge to `n >= 1`.
    fn put(&mut self, child: u32, parent: u32, n: u64)
        requires
            old(self).wf(),
            n >= 1,
        ensures
            final(self).wf(),
            final(self)@ == old(self)@.insert((child, parent), n),
    {
        let ghost g0 = self@;
        let fresh = !self.view_has(child, parent);
        let mut inner = match self.counts.remove(&child) {
            Some(m) => m,
            None => HashMap::new(),
        };
        inner.insert(parent, n);
        self.counts.insert(child, inner);
        if fresh {
            proof {
                if old(self).order@.contains((child, parent)) {
                    let i = choose|i: int| 0 <= i < old(self).order@.len() && old(self).order@[i] == (child, parent);
                    assert(old(self).has(old(self).order@[i].0, old(self).order@[i].1));
                }
            }
            self.order.push((child, parent));
        }
        proof {
            assert forall|c: u32, p: u32| #[trigger] self.has(c, p) == (old(self).has(c, p) || (c == child && p == parent)) by {}
            assert forall|i: int| 0 <= i < self.order@.len() implies self.has(#[trigger] self.order@[i].0, self.order@[i].1) by {
                if i < old(self).order@.len() {
                    assert(self.order@[i] == old(self).order@[i]);
                    assert(old(self).has(old(self).order@[i].0, old(self).order@[i].1));
                }
            }
            assert forall|c: u32, p: u32| #[trigger] self.has(c, p) implies self.order@.contains((c, p)) by {
                if old(self).has(c, p) {
                    let i = choose|i: int| 0 <= i < old(self).order@.len() && old(self).order@[i] == (c, p);
                    assert(self.order@[i] == (c, p));
                } else {
                    assert(self.order@[self.order@.len() - 1] == (c, p));
                }
            }
            assert forall|c: u32, p: u32| #[trigger] self.has(c, p) implies self.counts@[c]@[p] >= 1 by {
                if !(c == child && p == parent) {
                    assert(old(self).has(c, p));
                }
            }
            assert(self@ =~= g0.insert((child, parent), n));
        }
    }

    fn view_has(&self, child: u32, parent: u32) -> (r: bool)
        ensures
            r == self.has(child, parent),
    {
        match self.counts.get(&child) {
            Some(inner) => inner.contains_key(&parent),
            None => false,
        }
    }

    /// Counts one more traversal of the edge from `parent` to `child`,
    /// creating it with count one if absent.
    pub fn record_edge(&mut self, parent: u32, child: u32)
        requires
            old(self).wf(),
        ensures
            final(self).wf(),
            final(self)@ == bump(old(self)@, child, parent),
    {
        let cur = self.count(child, parent);
        let next: u64 = if cur < u64::MAX { cur + 1 } else { cur };
        proof {
            old(self).lemma_counts_positive();
        }
        self.put(child, parent, next);
    }

    /// Records the hops of a successful trace to `target`: each hop is counted
    /// as a child of the address before it, the first hop as a child of
    /// `target`.
    pub fn record_trace(&mut self, target: u32, hops: &Vec<u32>)
        requires
            old(self).wf(),
        ensures
            final(self).wf(),
            final(self)@ == add_trace(old(self)@, target, hops@),
    {
        let mut prev = target;
        let mut i: usize = 0;
        assert(hops@.subrange(0, hops@.len() as int) =~= hops@);
        while i < hops.len()
            invariant
                self.wf(),
                i <= hops@.len(),
                add_trace(self@, prev, hops@.subrange(i as int, hops@.len() as int))
                    == add_trace(old(self)@, target, hops@),
            decreases hops@.len() - i,
        {
            let ghost rest = hops@.subrange(i as int, hops@.len() as int);
            let h = hops[i];
            self.record_edge(prev, h);
            proof {
                assert(rest.drop_first() =~= hops@.subrange(i + 1, hops@.len() as int));
            }
            prev = h;
            i = i + 1;
        }
        proof {
            assert(hops@.subrange(i as int, hops@.len() as int) =~= Seq::<u32>::empty());
        }
    }

    /// Every edge as a `(child, parent, count)` record, each edge once, in the
    /// order in which edges were first seen.
    pub fn edges(&self) -> (r: Vec<(u32, u32, u64)>)
        requires
            self.wf(),
        ensures
            load_map(r@) == self@,
            forall|i: int| 0 <= i < r@.len() ==> (#[trigger] r@[i]).2 >= 1,
            forall|i: int, j: int|
                0 <= i < r@.len() && 0 <= j < r@.len() && i != j ==> (#[trigger] r@[i].0, r@[i].1) != (
                #[trigger] r@[j].0,
                r@[j].1,
            ),
    {
        let mut r: Vec<(u32, u32, u64)> = Vec::new();
        let mut i: usize = 0;
        while i < self.order.len()
            invariant
                self.wf(),
                i <= self.order@.len(),
                r@.len() == i,
                forall|j: int| 0 <= j < i ==> (#[trigger] r@[j]).0 == self.order@[j].0 && r@[j].1 == self.order@[j].1
                    && r@[j].2 == self@[self.order@[j]] && r@[j].2 >= 1,
                load_map(r@) == self@.restrict(self.order@.subrange(0, i as int).to_set()),
            decreases self.order@.len() - i,
        {
            let (c, p) = self.order[i];
            proof {
                assert(self.has(self.order@[i as int].0, self.order@[i as int].1));
            }
            let n = self.count(c, p);
            let ghost r0 = r@;
            r.push((c, p, n));
            proof {
                assert(r@.drop_last() =~= r0);
                assert(self.order@.subrange(0, i + 1) =~= self.order@.subrange(0, i as int).push((c, p)));
                lemma_push_pair_to_set(self.order@.subrange(0, i as int), (c, p));
                assert(self@.restrict(self.order@.subrange(0, i + 1).to_set()) =~= self@.restrict(
                    self.order@.subrange(0, i as int).to_set(),
                ).insert((c, p), n));
            }
            i = i + 1;
        }
        proof {
            assert(self.order@.subrange(0, i as int) =~= self.order@);
            assert(self@.restrict(self.order@.to_set()) =~= self@) by {
                assert forall|e: (u32, u32)| self@.contains_key(e) implies self.order@.to_set().contains(e) by {
                    assert(self.has(e.0, e.1));
                }
            }
            assert forall|i: int, j: int|
                0 <= i < r@.len() && 0 <= j < r@.len() && i != j implies (r@[i].0, r@[i].1) != (r@[j].0, r@[j].1) by {
                assert(self.order@[i] != self.order@[j]);
            }
        }
        r
    }

    /// A graph holding what the records describe: a later record for the same
    /// edge wins, and a zero count is ignored.
    pub fn from_edges(es: &Vec<(u32, u32, u64)>) -> (r: Graph)
        ensures
            r.wf(),
            r@ == load_map(es@),
    {
        let mut r = Graph::new();
        let mut i: usize = 0;
        while i < es.len()
            invariant
                r.wf(),
                i <= es@.len(),
                r@ == load_map(es@.subrange(0, i as int)),
            decreases es@.len() - i,
        {
            let (c, p, n) = es[i];
            if n > 0 {
                r.put(c, p, n);
            }
            proof {
                assert(es@.subrange(0, i + 1).drop_last() =~= es@.subrange(0, i as int));
            }
            i = i + 1;
        }
        assert(es@.subrange(0, es@.len() as int) =~= es@);
        r
    }
}

/// Appending a pair adds it to the set of elements.
proof fn lemma_push_pair_to_set(s: Seq<(u32, u32)>, x: (u32, u32))
    ensures
        s.push(x).to_set() == s.to_set().insert(x),
{
    assert forall|y: (u32, u32)| s.push(x).to_set().contains(y) <==> s.to_set().insert(x).contains(y) by {
        if s.contains(y) {
            let i = choose|i: int| 0 <= i < s.len() && s[i] == y;
            assert(s.push(x)[i] == y);
        }
        if y == x {
            assert(s.push(x)[s.len() as int] == y);
        }
        if s.push(x).contains(y) && y != x {
            let i = choose|i: int| 0 <= i < s.push(x).len() && s.push(x)[i] == y;
            assert(s[i] == y);
        }
    }
    assert(s.push(x).to_set() =~= s.to_set().insert(x));
}

/// Edge records with distinct edges and positive counts load back exactly:
/// each record's edge has its count, and no other edge is present.
pub proof fn lemma_load_distinct_records(es: Seq<(u32, u32, u64)>)
    requires
        forall|i: int| 0 <= i < es.len() ==> (#[trigger] es[i]).2 >= 1,
        forall|i: int, j: int|
            0 <= i < es.len() && 0 <= j < es.len() && i != j ==> (#[trigger] es[i].0, es[i].1) != (#[trigger] es[j].0, es[j].1),
    ensures
        forall|i: int| 0 <= i < es.len() ==> load_map(es).contains_key((#[trigger] es[i].0, es[i].1))
            && load_map(es)[(es[i].0, es[i].1)] == es[i].2,
        forall|e: (u32, u32)| #[trigger] load_map(es).contains_key(e) ==> exists|i: int| 0 <= i < es.len() && (#[trigger] es[i].0, es[i].1) == e,
    decreases es.len(),
{
    if es.len() > 0 {
        let pre = es.drop_last();
        assert forall|i: int, j: int|
            0 <= i < pre.len() && 0 <= j < pre.len() && i != j implies (pre[i].0, pre[i].1) != (pre[j].0, pre[j].1) by {
            assert(es[i] == pre[i] && es[j] == pre[j]);
        }
        assert forall|i: int| 0 <= i < pre.len() implies (#[trigger] pre[i]).2 >= 1 by {
            assert(es[i] == pre[i]);
        }
        lemma_load_distinct_records(pre);
        let last = es.last();
        let n = es.len() - 1;
        assert(es[n] == last);
        assert forall|i: int| 0 <= i < es.len() implies load_map(es).contains_key((#[trigger] es[i].0, es[i].1))
            && load_map(es)[(es[i].0, es[i].1)] == es[i].2 by {
            if i < n {
                assert(es[i] == pre[i]);
                assert((es[i].0, es[i].1) != (es[n].0, es[n].1));
            }
        }
        assert forall|e: (u32, u32)| #[trigger] load_map(es).contains_key(e) implies exists|i: int| 0 <= i < es.len() && (#[trigger] es[i].0, es[i].1) == e by {
            if e != (last.0, last.1) {
                assert(load_map(pre).contains_key(e));
                let i = choose|i: int| 0 <= i < pre.len() && (#[trigger] pre[i].0, pre[i].1) == e;
                assert(es[i] == pre[i]);
            } else {
                assert((es[n].0, es[n].1) == e);
            }
        }
    }
}

/// No count ever shrinks or disappears: growth composes over successive runs.
pub proof fn lemma_grows_transitive(a: EdgeCounts, b: EdgeCounts, c: EdgeCounts)
    requires
        grows_to(a, b),
        grows_to(b, c),
    ensures
        grows_to(a, c),
{
    assert forall|e: (u32, u32)| a.contains_key(e) implies c.contains_key(e) && a[e] <= c[e] by {
        assert(b.contains_key(e) && a[e] <= b[e]);
        assert(c.contains_key(e) && b[e] <= c[e]);
    }
}

/// Recording a trace only adds edges or raises counts.
pub proof fn lemma_trace_grows(g: EdgeCounts, prev: u32, hops: Seq<u32>)
    ensures
        grows_to(g, add_trace(g, prev, hops)),
    decreases hops.len(),
{
    if hops.len() > 0 {
        let g1 = bump(g, hops[0], prev);
        assert(grows_to(g, g1));
        lemma_trace_grows(g1, hops[0], hops.drop_first());
        lemma_grows_transitive(g, g1, add_trace(g1, hops[0], hops.drop_first()));
    }
}

/// A trace `[h1, h2, h3]` to `t` adds one to exactly the edges `(h1, t)`,
/// `(h2, h1)` and `(h3, h2)` (child first), and leaves every other edge alone.
pub proof fn lemma_three_hop_trace(g: EdgeCounts, t: u32, h1: u32, h2: u32, h3: u32)
    requires
        (h1, t) != (h2, h1),
        (h1, t) != (h3, h2),
        (h2, h1) != (h3, h2),
        count_of(g, h1, t) < u64::MAX,
        count_of(g, h2, h1) < u64::MAX,
        count_of(g, h3, h2) < u64::MAX,
    ensures
        ({
            let g2 = add_trace(g, t, seq![h1, h2, h3]);
            &&& count_of(g2, h1, t) == count_of(g, h1, t) + 1
            &&& count_of(g2, h2, h1) == count_of(g, h2, h1) + 1
            &&& count_of(g2, h3, h2) == count_of(g, h3, h2) + 1
            &&& g2.dom() == g.dom().insert((h1, t)).insert((h2, h1)).insert((h3, h2))
            &&& forall|e: (u32, u32)|
                e != (h1, t) && e != (h2, h1) && e != (h3, h2) && #[trigger] g.contains_key(e) ==> g2[e] == g[e]
        }),
{
    let s = seq![h1, h2, h3];
    assert(s.drop_first() =~= seq![h2, h3]);
    assert(seq![h2, h3].drop_first() =~= seq![h3]);
    assert(seq![h3].drop_first() =~= Seq::<u32>::empty());
    let g1 = bump(g, h1, t);
    let g2 = bump(g1, h2, h1);
    let g3 = bump(g2, h3, h2);
    assert(add_trace(g, t, s) == g3) by {
        assert(add_trace(g3, h3, Seq::<u32>::empty()) == g3);
        assert(add_trace(g2, h2, seq![h3]) == g3);
        assert(add_trace(g1, h1, seq![h2, h3]) == g3);
    }
    assert(g3.dom() =~= g.dom().insert((h1, t)).insert((h2, h1)).insert((h3, h2)));
}

} // verus!
