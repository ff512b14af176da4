//! Walking outward from seeds, breadth first and in both directions.
//!
//! The first time a section is reached is by its shortest path, and the edge that is
//! recorded is the one that explains it.

use vstd::prelude::*;

use crate::graph::{both_ways, lemma_edges_join, Edge, Graph, NodeIndex};

verus! {

/// One section reached from a seed, and how.
#[derive(Debug, Clone, Copy, PartialEq, Eq, Structural)]
pub struct Step {
    pub index: NodeIndex,
    /// 0 for a seed, 1 for a direct neighbour, and so on.
    pub hops: usize,
    /// The edge that first reached this section. `None` for a seed.
    pub via: Option<Edge>,
    /// Whether that edge was followed backwards.
    pub backwards: bool,
}

/// Whether some step reached the section.
pub open spec fn reached(steps: Seq<Step>, index: NodeIndex) -> bool {
    exists|i: int| 0 <= i < steps.len() && (#[trigger] steps[i]).index == index
}

/// The seeds that are sections, each once.
pub open spec fn seed_steps(seeds: Seq<NodeIndex>, count: int) -> Seq<Step>
    decreases seeds.len(),
{
    if seeds.len() == 0 {
        Seq::empty()
    } else {
        let before = seed_steps(seeds.drop_last(), count);
        let index = seeds.last();
        if index < count && !reached(before, index) {
            before.push(Step { index, hops: 0, via: None, backwards: false })
        } else {
            before
        }
    }
}

/// The steps after the first `k` neighbours were visited, and whether there was no
/// room for one of them.
pub open spec fn visited(
    steps: Seq<Step>,
    hops: usize,
    near: Seq<(NodeIndex, Edge, bool)>,
    limit: usize,
    k: int,
) -> (Seq<Step>, bool)
    decreases k,
{
    if k <= 0 {
        (steps, false)
    } else {
        let (before, full) = visited(steps, hops, near, limit, k - 1);
        let (index, edge, backwards) = near[k - 1];
        if full || reached(before, index) {
            (before, full)
        } else if before.len() >= limit {
            (before, true)
        } else {
            (
                before.push(
                    Step { index, hops: (hops + 1) as usize, via: Some(edge), backwards },
                ),
                false,
            )
        }
    }
}

/// How many sections may still be reached.
pub open spec fn room(count: int, used: nat) -> int {
    if used <= count {
        count + 1 - used
    } else {
        0
    }
}

impl Graph {
    /// The walk from the step at `head` on. Steps are taken in the order in which
    /// they were reached.
    pub open spec fn walked(
        self,
        steps: Seq<Step>,
        head: nat,
        max_hops: usize,
        limit: usize,
    ) -> Seq<Step>
        decreases room(self.nodes().len() as int, steps.len()), steps.len() - head,
        via Self::walked_decreases
    {
        if head >= steps.len() || steps.len() > self.nodes().len() {
            steps
        } else if steps[head as int].hops >= max_hops {
            self.walked(steps, head + 1, max_hops, limit)
        } else {
            let here = steps[head as int];
            let near = both_ways(
                self.edges_from(here.index as int),
                self.edges_to(here.index as int),
            );
            let (next, full) = visited(steps, here.hops, near, limit, near.len() as int);
            if full {
                next
            } else {
                self.walked(next, head + 1, max_hops, limit)
            }
        }
    }

    #[via_fn]
    proof fn walked_decreases(self, steps: Seq<Step>, head: nat, max_hops: usize, limit: usize) {
        if head < steps.len() && steps.len() <= self.nodes().len() {
            let here = steps[head as int];
            let near = both_ways(
                self.edges_from(here.index as int),
                self.edges_to(here.index as int),
            );
            lemma_visited_grows(steps, here.hops, near, limit, near.len() as int);
        }
    }

    /// Everything reached from the seeds within `max_hops`, nearest first, up to
    /// `limit` sections.
    pub open spec fn walk_of(self, seeds: Seq<NodeIndex>, max_hops: usize, limit: usize) -> Seq<
        Step,
    > {
        self.walked(seed_steps(seeds, self.nodes().len() as int), 0, max_hops, limit)
    }
}

proof fn lemma_visited_grows(
    steps: Seq<Step>,
    hops: usize,
    near: Seq<(NodeIndex, Edge, bool)>,
    limit: usize,
    k: int,
)
    ensures
        steps.len() <= visited(steps, hops, near, limit, k).0.len(),
        visited(steps, hops, near, limit, k).0.take(steps.len() as int) == steps,
    decreases k,
{
    if k > 0 {
        lemma_visited_grows(steps, hops, near, limit, k - 1);
        let before = visited(steps, hops, near, limit, k - 1).0;
        let after = visited(steps, hops, near, limit, k).0;
        assert(after.take(steps.len() as int) == before.take(steps.len() as int));
    } else {
        assert(steps.take(steps.len() as int) == steps);
    }
}

/// Whether the steps name sections, each once, none too far.
pub open spec fn sound(steps: Seq<Step>, count: int, max_hops: usize) -> bool {
    &&& forall|i: int| 0 <= i < steps.len() ==> (#[trigger] steps[i]).index < count
    &&& forall|i: int| 0 <= i < steps.len() ==> (#[trigger] steps[i]).hops <= max_hops
    &&& forall|i: int, j: int|
        0 <= i < j < steps.len() ==> (#[trigger] steps[i]).index != (#[trigger] steps[j]).index
}

proof fn lemma_room(steps: Seq<Step>, count: int, max_hops: usize)
    requires
        0 <= count,
        sound(steps, count, max_hops),
    ensures
        steps.len() <= count,
    decreases count,
{
    if steps.len() > 0 {
        if count == 0 {
            assert(steps[0].index < 0);
        } else if exists|k: int| 0 <= k < steps.len() && (#[trigger] steps[k]).index == count - 1 {
            let k = choose|k: int| 0 <= k < steps.len() && (#[trigger] steps[k]).index == count - 1;
            let rest = steps.remove(k);
            assert forall|i: int| 0 <= i < rest.len() implies (#[trigger] rest[i]).index < count - 1
                && rest[i].hops <= max_hops by {
                let at = if i < k {
                    i
                } else {
                    i + 1
                };
                assert(rest[i] == steps[at]);
                assert(steps[at].index < count);
                assert(steps[at].index != steps[k].index);
            }
            assert forall|i: int, j: int| 0 <= i < j < rest.len() implies (
            #[trigger] rest[i]).index != (#[trigger] rest[j]).index by {
                let a = if i < k {
                    i
                } else {
                    i + 1
                };
                let b = if j < k {
                    j
                } else {
                    j + 1
                };
                assert(rest[i] == steps[a] && rest[j] == steps[b]);
            }
            lemma_room(rest, count - 1, max_hops);
        } else {
            assert forall|i: int| 0 <= i < steps.len() implies (#[trigger] steps[i]).index < count
                - 1 by {}
            lemma_room(steps, count - 1, max_hops);
        }
    }
}

fn is_reached(steps: &Vec<Step>, index: NodeIndex) -> (r: bool)
    ensures
        r == reached(steps@, index),
{
    let mut i: usize = 0;
    while i < steps.len()
        invariant
            0 <= i <= steps.len(),
            forall|j: int| 0 <= j < i ==> (#[trigger] steps@[j]).index != index,
        decreases steps.len() - i,
    {
        if steps[i].index == index {
            assert(steps@[i as int].index == index);
            return true;
        }
        i += 1;
    }
    false
}

impl Graph {
    /// Walks outward from seeds, both directions.
    ///
    /// Seeds come first, at no hops. A seed that is no section, or was given before,
    /// is passed over.
    pub fn walk(&self, seeds: &Vec<NodeIndex>, max_hops: usize, limit: usize) -> (r: Vec<Step>)
        requires
            self.well_formed(),
        ensures
            r@ == self.walk_of(seeds@, max_hops, limit),
            sound(r@, self.nodes().len() as int, max_hops),
    {
        let count: usize = self.len();
        let mut steps: Vec<Step> = Vec::new();
        let mut i: usize = 0;
        assert(seeds@.take(0) == Seq::<NodeIndex>::empty());
        while i < seeds.len()
            invariant
                0 <= i <= seeds.len(),
                count == self.nodes().len(),
                steps@ == seed_steps(seeds@.take(i as int), count as int),
                sound(steps@, count as int, max_hops),
            decreases seeds.len() - i,
        {
            let index: NodeIndex = seeds[i];
            assert(seeds@.take(i + 1).drop_last() == seeds@.take(i as int));
            assert(seeds@.take(i + 1).last() == index);
            if index < count && !is_reached(&steps, index) {
                let ghost before = steps@;
                steps.push(Step { index, hops: 0, via: None, backwards: false });
                assert forall|a: int, b: int| 0 <= a < b < steps.len() implies (
                #[trigger] steps@[a]).index != (#[trigger] steps@[b]).index by {
                    if b == before.len() {
                        assert(before[a].index != index);
                    }
                }
            }
            i += 1;
        }
        assert(seeds@.take(seeds.len() as int) == seeds@);
        let ghost goal = self.walk_of(seeds@, max_hops, limit);
        let mut head: usize = 0;
        while head < steps.len()
            invariant
                0 <= head <= steps.len(),
                count == self.nodes().len(),
                self.well_formed(),
                sound(steps@, count as int, max_hops),
                goal == self.walk_of(seeds@, max_hops, limit),
                goal == self.walked(steps@, head as nat, max_hops, limit),
            decreases room(count as int, steps@.len()), steps.len() - head,
        {
            proof {
                lemma_room(steps@, count as int, max_hops);
            }
            let here: Step = steps[head];
            if here.hops < max_hops {
                let near = self.neighbours(here.index);
                let ghost start = steps@;
                let mut full: bool = false;
                let mut k: usize = 0;
                while k < near.len() && !full
                    invariant
                        0 <= k <= near.len(),
                        count == self.nodes().len(),
                        here.hops < max_hops,
                        sound(steps@, count as int, max_hops),
                        forall|j: int| 0 <= j < near.len() ==> (#[trigger] near@[j]).0 < count,
                        (steps@, full) == visited(start, here.hops, near@, limit, k as int),
                    decreases near.len() - k,
                {
                    let (index, edge, backwards) = near[k];
                    if !is_reached(&steps, index) {
                        if steps.len() >= limit {
                            full = true;
                        } else {
                            let ghost before = steps@;
                            steps.push(
                                Step { index, hops: here.hops + 1, via: Some(edge), backwards },
                            );
                            assert forall|a: int, b: int| 0 <= a < b < steps.len() implies (
                            #[trigger] steps@[a]).index != (#[trigger] steps@[b]).index by {
                                if b == before.len() {
                                    assert(before[a].index != index);
                                }
                            }
                        }
                    }
                    k += 1;
                }
                proof {
                    lemma_visited_grows(start, here.hops, near@, limit, near.len() as int);
                    lemma_room(steps@, count as int, max_hops);
                }
                if full {
                    proof {
                        lemma_full_stays(start, here.hops, near@, limit, k as int, near.len() as int);
                    }
                    return steps;
                }
            }
            head += 1;
        }
        steps
    }
}

proof fn lemma_full_stays(
    steps: Seq<Step>,
    hops: usize,
    near: Seq<(NodeIndex, Edge, bool)>,
    limit: usize,
    k: int,
    n: int,
)
    requires
        0 <= k <= n,
        visited(steps, hops, near, limit, k).1,
    ensures
        visited(steps, hops, near, limit, n) == visited(steps, hops, near, limit, k),
    decreases n - k,
{
    if k < n {
        lemma_full_stays(steps, hops, near, limit, k + 1, n);
    }
}

// ---------------------------------------------------------------------------
// Laws
// ---------------------------------------------------------------------------

proof fn lemma_visited_hops(
    steps: Seq<Step>,
    hops: usize,
    near: Seq<(NodeIndex, Edge, bool)>,
    limit: usize,
    k: int,
)
    requires
        0 <= k <= near.len(),
        hops < usize::MAX,
        forall|i: int| 0 <= i < steps.len() ==> (#[trigger] steps[i]).hops <= hops + 1,
        forall|i: int, j: int|
            0 <= i <= j < steps.len() ==> (#[trigger] steps[i]).hops <= (#[trigger] steps[j]).hops,
    ensures
        ({
            let after = visited(steps, hops, near, limit, k).0;
            &&& forall|i: int| 0 <= i < after.len() ==> (#[trigger] after[i]).hops <= hops + 1
            &&& forall|i: int, j: int|
                0 <= i <= j < after.len() ==> (#[trigger] after[i]).hops <= (
                #[trigger] after[j]).hops
        }),
    decreases k,
{
    if k > 0 {
        lemma_visited_hops(steps, hops, near, limit, k - 1);
    }
}

/// A section that was reached later is no nearer: the steps come in order of their
/// distance.
proof fn lemma_walked_in_order(
    graph: Graph,
    steps: Seq<Step>,
    head: nat,
    max_hops: usize,
    limit: usize,
)
    requires
        forall|i: int, j: int|
            0 <= i <= j < steps.len() ==> (#[trigger] steps[i]).hops <= (#[trigger] steps[j]).hops,
        head < steps.len() ==> forall|i: int|
            0 <= i < steps.len() ==> (#[trigger] steps[i]).hops <= steps[head as int].hops + 1,
    ensures
        ({
            let after = graph.walked(steps, head, max_hops, limit);
            forall|i: int, j: int|
                0 <= i <= j < after.len() ==> (#[trigger] after[i]).hops <= (
                #[trigger] after[j]).hops
        }),
    decreases room(graph.nodes().len() as int, steps.len()), steps.len() - head,
{
    if head >= steps.len() || steps.len() > graph.nodes().len() {
    } else if steps[head as int].hops >= max_hops {
        if head + 1 < steps.len() {
            assert(steps[head as int].hops <= steps[(head + 1) as int].hops);
        }
        lemma_walked_in_order(graph, steps, head + 1, max_hops, limit);
    } else {
        let here = steps[head as int];
        let near = both_ways(
            graph.edges_from(here.index as int),
            graph.edges_to(here.index as int),
        );
        let n = near.len() as int;
        lemma_visited_hops(steps, here.hops, near, limit, n);
        lemma_visited_grows(steps, here.hops, near, limit, n);
        let (next, full) = visited(steps, here.hops, near, limit, n);
        if !full {
            assert(next[head as int] == next.take(steps.len() as int)[head as int]);
            if head + 1 < next.len() {
                assert(next[head as int].hops <= next[(head + 1) as int].hops);
            }
            lemma_walked_in_order(graph, next, head + 1, max_hops, limit);
        }
    }
}

proof fn lemma_seeds_flat(seeds: Seq<NodeIndex>, count: int)
    ensures
        forall|i: int|
            0 <= i < seed_steps(seeds, count).len() ==> (#[trigger] seed_steps(seeds, count)[i]).hops
                == 0,
    decreases seeds.len(),
{
    if seeds.len() > 0 {
        lemma_seeds_flat(seeds.drop_last(), count);
    }
}

/// A walk comes in order of distance: seeds first, then what is one edge away, and
/// so on.
pub proof fn nearer_sections_come_first(
    graph: Graph,
    seeds: Seq<NodeIndex>,
    max_hops: usize,
    limit: usize,
    i: int,
    j: int,
)
    requires
        0 <= i <= j < graph.walk_of(seeds, max_hops, limit).len(),
    ensures
        graph.walk_of(seeds, max_hops, limit)[i].hops <= graph.walk_of(
            seeds,
            max_hops,
            limit,
        )[j].hops,
{
    lemma_seeds_flat(seeds, graph.nodes().len() as int);
    lemma_walked_in_order(
        graph,
        seed_steps(seeds, graph.nodes().len() as int),
        0,
        max_hops,
        limit,
    );
}

// ---------------------------------------------------------------------------
// Distances
// ---------------------------------------------------------------------------

impl Graph {
    /// The neighbours of a section, in both directions.
    pub open spec fn near(self, index: NodeIndex) -> Seq<(NodeIndex, Edge, bool)> {
        both_ways(self.edges_from(index as int), self.edges_to(index as int))
    }

    /// Whether an edge joins the two sections, whichever way it points.
    pub open spec fn joins(self, from: NodeIndex, to: NodeIndex) -> bool {
        exists|k: int| 0 <= k < self.near(from).len() && (#[trigger] self.near(from)[k]).0 == to
    }

    /// Whether at most `n` edges lead from some seed to the section.
    pub open spec fn within(self, seeds: Seq<NodeIndex>, index: NodeIndex, n: nat) -> bool
        decreases n,
    {
        if n == 0 {
            index < self.nodes().len() && seeds.contains(index)
        } else {
            ||| self.within(seeds, index, (n - 1) as nat)
            ||| exists|p: NodeIndex|
                self.within(seeds, p, (n - 1) as nat) && #[trigger] self.joins(p, index)
        }
    }

    /// Whether the section is `n` edges away from the nearest seed.
    pub open spec fn distance_is(self, seeds: Seq<NodeIndex>, index: NodeIndex, n: nat) -> bool {
        self.within(seeds, index, n) && forall|m: nat| m < n ==> !self.within(seeds, index, m)
    }

    /// Whether every step has its distance, and every seed that is a section is a step.
    spec fn measured(self, seeds: Seq<NodeIndex>, steps: Seq<Step>) -> bool {
        &&& forall|i: int|
            0 <= i < steps.len() ==> self.distance_is(
                seeds,
                (#[trigger] steps[i]).index,
                steps[i].hops as nat,
            )
        &&& forall|s: NodeIndex| #[trigger]
            seeds.contains(s) && s < self.nodes().len() ==> reached(steps, s)
    }

    /// Whether the neighbours of the first `head` steps are steps too, but for those of
    /// steps at the edge.
    spec fn explored(self, steps: Seq<Step>, head: int, max_hops: usize) -> bool {
        forall|i: int, k: int|
            0 <= i < head && i < steps.len() && steps[i].hops < max_hops && 0 <= k < self.near(
                steps[i].index,
            ).len() ==> reached(steps, (#[trigger] self.near(steps[i].index)[k]).0)
    }
}

/// Whether the steps come in order of their distance.
spec fn in_order(steps: Seq<Step>) -> bool {
    forall|i: int, j: int|
        0 <= i <= j < steps.len() ==> (#[trigger] steps[i]).hops <= (#[trigger] steps[j]).hops
}

proof fn lemma_reached_stays(steps: Seq<Step>, more: Seq<Step>, index: NodeIndex)
    requires
        steps.len() <= more.len(),
        more.take(steps.len() as int) == steps,
        reached(steps, index),
    ensures
        reached(more, index),
{
    let i = choose|i: int| 0 <= i < steps.len() && (#[trigger] steps[i]).index == index;
    assert(more[i] == more.take(steps.len() as int)[i]);
}

/// What is near enough was reached, and by as few edges as can be.
proof fn lemma_near_is_reached(
    graph: Graph,
    seeds: Seq<NodeIndex>,
    steps: Seq<Step>,
    head: int,
    max_hops: usize,
    index: NodeIndex,
    d: nat,
) -> (at: int)
    requires
        0 <= head <= steps.len(),
        graph.measured(seeds, steps),
        graph.explored(steps, head, max_hops),
        in_order(steps),
        head < steps.len() ==> d < steps[head].hops && steps[head].hops <= max_hops,
        head == steps.len() ==> d <= max_hops,
        graph.within(seeds, index, d),
    ensures
        0 <= at < steps.len(),
        steps[at].index == index,
        steps[at].hops <= d,
    decreases d,
{
    if d > 0 && !graph.within(seeds, index, (d - 1) as nat) {
        let p = choose|p: NodeIndex|
            graph.within(seeds, p, (d - 1) as nat) && #[trigger] graph.joins(p, index);
        let i = lemma_near_is_reached(graph, seeds, steps, head, max_hops, p, (d - 1) as nat);
        let k = choose|k: int|
            0 <= k < graph.near(p).len() && (#[trigger] graph.near(p)[k]).0 == index;
        assert(i < head);
        assert(reached(steps, graph.near(steps[i].index)[k].0));
    } else if d > 0 {
        let i = lemma_near_is_reached(graph, seeds, steps, head, max_hops, index, (d - 1) as nat);
    }
    assert(reached(steps, index));
    let at = choose|i: int| 0 <= i < steps.len() && (#[trigger] steps[i]).index == index;
    assert(graph.distance_is(seeds, steps[at].index, steps[at].hops as nat));
    at
}

/// A section that is found behind the step at `head`, and was not reached before, is one
/// edge further away than that step.
proof fn lemma_not_nearer(
    graph: Graph,
    seeds: Seq<NodeIndex>,
    steps: Seq<Step>,
    head: int,
    max_hops: usize,
    index: NodeIndex,
    m: nat,
)
    requires
        0 <= head < steps.len(),
        graph.measured(seeds, steps),
        graph.explored(steps, head, max_hops),
        in_order(steps),
        steps[head].hops < max_hops,
        m <= steps[head].hops,
        !reached(steps, index),
    ensures
        !graph.within(seeds, index, m),
    decreases m,
{
    if m > 0 {
        lemma_not_nearer(graph, seeds, steps, head, max_hops, index, (m - 1) as nat);
        if graph.within(seeds, index, m) {
            let p = choose|p: NodeIndex|
                graph.within(seeds, p, (m - 1) as nat) && #[trigger] graph.joins(p, index);
            let i = lemma_near_is_reached(graph, seeds, steps, head, max_hops, p, (m - 1) as nat);
            let k = choose|k: int|
                0 <= k < graph.near(p).len() && (#[trigger] graph.near(p)[k]).0 == index;
            assert(i < head);
            assert(reached(steps, graph.near(steps[i].index)[k].0));
        }
    }
}

proof fn lemma_visited_measured(
    graph: Graph,
    seeds: Seq<NodeIndex>,
    steps: Seq<Step>,
    head: int,
    max_hops: usize,
    limit: usize,
    k: int,
)
    requires
        graph.well_formed(),
        0 <= head < steps.len(),
        sound(steps, graph.nodes().len() as int, max_hops),
        graph.measured(seeds, steps),
        graph.explored(steps, head, max_hops),
        in_order(steps),
        steps[head].hops < max_hops,
        0 <= k <= graph.near(steps[head].index).len(),
    ensures
        ({
            let near = graph.near(steps[head].index);
            let (after, full) = visited(steps, steps[head].hops, near, limit, k);
            &&& sound(after, graph.nodes().len() as int, max_hops)
            &&& graph.measured(seeds, after)
            &&& full ==> after.len() >= limit
            &&& !full ==> forall|j: int| 0 <= j < k ==> reached(after, (#[trigger] near[j]).0)
        }),
    decreases k,
{
    if k > 0 {
        lemma_visited_measured(graph, seeds, steps, head, max_hops, limit, k - 1);
        let here = steps[head];
        let near = graph.near(here.index);
        lemma_visited_grows(steps, here.hops, near, limit, k - 1);
        lemma_edges_join(graph, here.index as int);
        let (before, was_full) = visited(steps, here.hops, near, limit, k - 1);
        let (after, full) = visited(steps, here.hops, near, limit, k);
        let index = near[k - 1].0;
        assert(index < graph.nodes().len());
        if !was_full && !reached(before, index) && before.len() < limit {
            assert(after.take(before.len() as int) == before);
            if reached(steps, index) {
                lemma_reached_stays(steps, before, index);
            }
            assert(graph.joins(here.index, index));
            assert(graph.distance_is(seeds, here.index, here.hops as nat));
            assert(graph.within(seeds, index, (here.hops + 1) as nat)) by {
                assert(((here.hops + 1) as nat - 1) as nat == here.hops as nat);
            }
            assert forall|m: nat| m < here.hops + 1 implies !graph.within(seeds, index, m) by {
                lemma_not_nearer(graph, seeds, steps, head, max_hops, index, m);
            }
            let last = after[before.len() as int];
            assert(graph.distance_is(seeds, last.index, last.hops as nat));
            assert forall|i: int| 0 <= i < after.len() implies graph.distance_is(
                seeds,
                (#[trigger] after[i]).index,
                after[i].hops as nat,
            ) by {
                if i < before.len() {
                    assert(after[i] == before[i]);
                }
            }
            assert forall|s: NodeIndex| #[trigger]
                seeds.contains(s) && s < graph.nodes().len() implies reached(after, s) by {
                lemma_reached_stays(before, after, s);
            }
            assert forall|a: int, b: int| 0 <= a < b < after.len() implies (
            #[trigger] after[a]).index != (#[trigger] after[b]).index by {
                if b == before.len() {
                    assert(before[a].index != index);
                }
            }
            assert forall|j: int| 0 <= j < k implies reached(after, (#[trigger] near[j]).0) by {
                if j < k - 1 {
                    lemma_reached_stays(before, after, near[j].0);
                } else {
                    assert(after[before.len() as int].index == index);
                }
            }
        }
    }
}

proof fn lemma_walked_measured(
    graph: Graph,
    seeds: Seq<NodeIndex>,
    steps: Seq<Step>,
    head: nat,
    max_hops: usize,
    limit: usize,
)
    requires
        graph.well_formed(),
        head <= steps.len(),
        sound(steps, graph.nodes().len() as int, max_hops),
        graph.measured(seeds, steps),
        graph.explored(steps, head as int, max_hops),
        in_order(steps),
        head < steps.len() ==> forall|i: int|
            0 <= i < steps.len() ==> (#[trigger] steps[i]).hops <= steps[head as int].hops + 1,
    ensures
        ({
            let after = graph.walked(steps, head, max_hops, limit);
            &&& graph.measured(seeds, after)
            &&& after.len() < limit ==> forall|index: NodeIndex| #[trigger]
                graph.within(seeds, index, max_hops as nat) ==> reached(after, index)
        }),
    decreases room(graph.nodes().len() as int, steps.len()), steps.len() - head,
{
    lemma_room(steps, graph.nodes().len() as int, max_hops);
    if head >= steps.len() {
        assert forall|index: NodeIndex| #[trigger]
            graph.within(seeds, index, max_hops as nat) implies reached(steps, index) by {
            let at = lemma_near_is_reached(
                graph,
                seeds,
                steps,
                head as int,
                max_hops,
                index,
                max_hops as nat,
            );
        }
    } else if steps[head as int].hops >= max_hops {
        if head + 1 < steps.len() {
            assert(steps[head as int].hops <= steps[(head + 1) as int].hops);
        }
        lemma_walked_measured(graph, seeds, steps, head + 1, max_hops, limit);
    } else {
        let here = steps[head as int];
        let near = graph.near(here.index);
        let n = near.len() as int;
        lemma_visited_hops(steps, here.hops, near, limit, n);
        lemma_visited_grows(steps, here.hops, near, limit, n);
        lemma_visited_measured(graph, seeds, steps, head as int, max_hops, limit, n);
        let (next, full) = visited(steps, here.hops, near, limit, n);
        if !full {
            assert(next[head as int] == next.take(steps.len() as int)[head as int]);
            if head + 1 < next.len() {
                assert(next[head as int].hops <= next[(head + 1) as int].hops);
            }
            assert forall|i: int, k: int|
                0 <= i < head + 1 && i < next.len() && next[i].hops < max_hops && 0 <= k
                    < graph.near(next[i].index).len() implies reached(
                next,
                (#[trigger] graph.near(next[i].index)[k]).0,
            ) by {
                assert(next[i] == next.take(steps.len() as int)[i]);
                if i < head {
                    assert(reached(steps, graph.near(steps[i].index)[k].0));
                    lemma_reached_stays(steps, next, graph.near(steps[i].index)[k].0);
                } else {
                    assert(reached(next, near[k].0));
                }
            }
            lemma_walked_measured(graph, seeds, next, head + 1, max_hops, limit);
        }
    }
}

proof fn lemma_seeds_measured(
    graph: Graph,
    seeds: Seq<NodeIndex>,
    count: int,
    max_hops: usize,
    s: NodeIndex,
)
    requires
        count == graph.nodes().len(),
    ensures
        sound(seed_steps(seeds, count), count, max_hops),
        forall|i: int|
            0 <= i < seed_steps(seeds, count).len() ==> seeds.contains(
                (#[trigger] seed_steps(seeds, count)[i]).index,
            ) && seed_steps(seeds, count)[i].hops == 0,
        seeds.contains(s) && s < count ==> reached(seed_steps(seeds, count), s),
    decreases seeds.len(),
{
    if seeds.len() > 0 {
        let rest = seeds.drop_last();
        lemma_seeds_measured(graph, rest, count, max_hops, s);
        let before = seed_steps(rest, count);
        let all = seed_steps(seeds, count);
        let last = seeds.last();
        assert(seeds[seeds.len() - 1] == last);
        assert forall|i: int| 0 <= i < all.len() implies seeds.contains((#[trigger] all[i]).index)
            && all[i].hops == 0 by {
            if i < before.len() {
                assert(all[i] == before[i]);
                let k = choose|k: int| 0 <= k < rest.len() && rest[k] == before[i].index;
                assert(seeds[k] == before[i].index);
            }
        }
        if last < count && !reached(before, last) {
            assert(all.take(before.len() as int) == before);
            assert(all[before.len() as int].index == last);
            assert forall|a: int, b: int| 0 <= a < b < all.len() implies (
            #[trigger] all[a]).index != (#[trigger] all[b]).index by {
                if b == before.len() {
                    assert(before[a].index != last);
                }
            }
            if reached(before, s) {
                lemma_reached_stays(before, all, s);
            }
        }
        if seeds.contains(s) && s != last {
            let k = choose|k: int| 0 <= k < seeds.len() && seeds[k] == s;
            assert(rest[k] == s);
        }
    }
}

proof fn lemma_walk_measured(graph: Graph, seeds: Seq<NodeIndex>, max_hops: usize, limit: usize)
    requires
        graph.well_formed(),
    ensures
        ({
            let walk = graph.walk_of(seeds, max_hops, limit);
            &&& graph.measured(seeds, walk)
            &&& walk.len() < limit ==> forall|index: NodeIndex| #[trigger]
                graph.within(seeds, index, max_hops as nat) ==> reached(walk, index)
        }),
{
    let count = graph.nodes().len() as int;
    let steps = seed_steps(seeds, count);
    lemma_seeds_measured(graph, seeds, count, max_hops, 0);
    assert forall|s: NodeIndex| #[trigger] seeds.contains(s) && s < count implies reached(
        steps,
        s,
    ) by {
        lemma_seeds_measured(graph, seeds, count, max_hops, s);
    }
    assert forall|i: int| 0 <= i < steps.len() implies graph.distance_is(
        seeds,
        (#[trigger] steps[i]).index,
        steps[i].hops as nat,
    ) by {
        assert(seeds.contains(steps[i].index));
    }
    lemma_walked_measured(graph, seeds, steps, 0, max_hops, limit);
}

/// A section is reached by its shortest path: its hops are its distance from the nearest
/// seed, edges being followed either way.
pub proof fn hops_are_the_shortest_distance(
    graph: Graph,
    seeds: Seq<NodeIndex>,
    max_hops: usize,
    limit: usize,
    i: int,
)
    requires
        graph.well_formed(),
        0 <= i < graph.walk_of(seeds, max_hops, limit).len(),
    ensures
        ({
            let step = graph.walk_of(seeds, max_hops, limit)[i];
            graph.distance_is(seeds, step.index, step.hops as nat)
        }),
{
    lemma_walk_measured(graph, seeds, max_hops, limit);
}

/// Every section within `max_hops` is reached, unless the limit is.
pub proof fn what_is_near_is_reached(
    graph: Graph,
    seeds: Seq<NodeIndex>,
    max_hops: usize,
    limit: usize,
    index: NodeIndex,
)
    requires
        graph.well_formed(),
        graph.within(seeds, index, max_hops as nat),
    ensures
        ({
            let walk = graph.walk_of(seeds, max_hops, limit);
            reached(walk, index) || walk.len() >= limit
        }),
{
    lemma_walk_measured(graph, seeds, max_hops, limit);
}

/// Whether the step at `i` tells how its section was reached: a seed by itself, and any other
/// by an edge, followed the way it says, from a section one hop nearer that was reached
/// before.
pub open spec fn explained(graph: Graph, steps: Seq<Step>, i: int) -> bool {
    let step = steps[i];
    &&& step.hops == 0 ==> step.via is None && !step.backwards
    &&& step.hops > 0 ==> step.via is Some && exists|p: int|
        {
            &&& 0 <= p < i
            &&& (#[trigger] steps[p]).hops + 1 == step.hops
            &&& !step.backwards ==> step.via->0.target == step.index && graph.edges_from(
                steps[p].index as int,
            ).contains(step.via->0)
            &&& step.backwards ==> step.via->0.source == step.index && graph.edges_to(
                steps[p].index as int,
            ).contains(step.via->0)
        }
}

/// What holds of the steps of a walk.
spec fn told(graph: Graph, steps: Seq<Step>, max_hops: usize) -> bool {
    &&& forall|i: int| 0 <= i < steps.len() ==> #[trigger] explained(graph, steps, i)
    &&& forall|i: int| 0 <= i < steps.len() ==> (#[trigger] steps[i]).hops <= max_hops
    &&& forall|i: int, j: int|
        0 <= i < j < steps.len() ==> (#[trigger] steps[i]).index != (#[trigger] steps[j]).index
}

proof fn lemma_explained_on(graph: Graph, steps: Seq<Step>, step: Step, i: int)
    requires
        0 <= i < steps.len(),
        explained(graph, steps, i),
    ensures
        explained(graph, steps.push(step), i),
{
    let more = steps.push(step);
    assert(more[i] == steps[i]);
    if steps[i].hops > 0 {
        let p = choose|p: int|
            {
                &&& 0 <= p < i
                &&& (#[trigger] steps[p]).hops + 1 == steps[i].hops
                &&& !steps[i].backwards ==> steps[i].via->0.target == steps[i].index
                    && graph.edges_from(steps[p].index as int).contains(steps[i].via->0)
                &&& steps[i].backwards ==> steps[i].via->0.source == steps[i].index
                    && graph.edges_to(steps[p].index as int).contains(steps[i].via->0)
            };
        assert(more[p] == steps[p]);
    }
}

proof fn lemma_visited_told(
    graph: Graph,
    steps: Seq<Step>,
    head: int,
    max_hops: usize,
    limit: usize,
    k: int,
)
    requires
        0 <= head < steps.len(),
        told(graph, steps, max_hops),
        steps[head].hops < max_hops,
        0 <= k <= both_ways(
            graph.edges_from(steps[head].index as int),
            graph.edges_to(steps[head].index as int),
        ).len(),
    ensures
        ({
            let near = both_ways(
                graph.edges_from(steps[head].index as int),
                graph.edges_to(steps[head].index as int),
            );
            let next = visited(steps, steps[head].hops, near, limit, k).0;
            &&& told(graph, next, max_hops)
            &&& next.len() >= steps.len()
            &&& next.take(steps.len() as int) == steps
            &&& next.len() <= limit || next.len() == steps.len()
        }),
    decreases k,
{
    let here = steps[head];
    let out = graph.edges_from(here.index as int);
    let back = graph.edges_to(here.index as int);
    let near = both_ways(out, back);
    if k > 0 {
        lemma_visited_told(graph, steps, head, max_hops, limit, k - 1);
        let (before, full) = visited(steps, here.hops, near, limit, k - 1);
        let (index, edge, backwards) = near[k - 1];
        if !full && !reached(before, index) && before.len() < limit {
            let step = Step { index, hops: (here.hops + 1) as usize, via: Some(edge), backwards };
            let next = before.push(step);
            assert(before[head] == before.take(steps.len() as int)[head]);
            let last = before.len() as int;
            assert(explained(graph, next, last)) by {
                assert(next[head] == here);
                if k - 1 < out.len() {
                    assert(out[k - 1] == edge);
                } else {
                    assert(back[k - 1 - out.len()] == edge);
                }
            }
            assert forall|i: int| 0 <= i < next.len() implies #[trigger] explained(
                graph,
                next,
                i,
            ) by {
                if i < last {
                    assert(explained(graph, before, i));
                    lemma_explained_on(graph, before, step, i);
                }
            }
            assert forall|i: int, j: int| 0 <= i < j < next.len() implies (
            #[trigger] next[i]).index != (#[trigger] next[j]).index by {
                assert(before[i] == next[i]);
                if j < last {
                    assert(before[j] == next[j]);
                }
            }
            assert(next.take(steps.len() as int) == before.take(steps.len() as int));
        }
    } else {
        assert(steps.take(steps.len() as int) == steps);
    }
}

proof fn lemma_walked_told(
    graph: Graph,
    steps: Seq<Step>,
    head: nat,
    max_hops: usize,
    limit: usize,
)
    requires
        told(graph, steps, max_hops),
    ensures
        told(graph, graph.walked(steps, head, max_hops, limit), max_hops),
        graph.walked(steps, head, max_hops, limit).len() >= steps.len(),
        graph.walked(steps, head, max_hops, limit).take(steps.len() as int) == steps,
        graph.walked(steps, head, max_hops, limit).len() <= limit || graph.walked(
            steps,
            head,
            max_hops,
            limit,
        ).len() == steps.len(),
    decreases room(graph.nodes().len() as int, steps.len()), steps.len() - head,
{
    assert(steps.take(steps.len() as int) == steps);
    if head < steps.len() && steps.len() <= graph.nodes().len() {
        if steps[head as int].hops >= max_hops {
            lemma_walked_told(graph, steps, head + 1, max_hops, limit);
        } else {
            let here = steps[head as int];
            let near = both_ways(
                graph.edges_from(here.index as int),
                graph.edges_to(here.index as int),
            );
            lemma_visited_told(graph, steps, head as int, max_hops, limit, near.len() as int);
            lemma_visited_grows(steps, here.hops, near, limit, near.len() as int);
            let (next, full) = visited(steps, here.hops, near, limit, near.len() as int);
            if !full {
                lemma_walked_told(graph, next, head + 1, max_hops, limit);
                let end = graph.walked(next, head + 1, max_hops, limit);
                assert(end.take(steps.len() as int) == end.take(next.len() as int).take(
                    steps.len() as int,
                ));
            }
        }
    }
}

proof fn lemma_seeds_told(graph: Graph, seeds: Seq<NodeIndex>, max_hops: usize)
    ensures
        told(graph, seed_steps(seeds, graph.nodes().len() as int), max_hops),
    decreases seeds.len(),
{
    let count = graph.nodes().len() as int;
    if seeds.len() > 0 {
        lemma_seeds_told(graph, seeds.drop_last(), max_hops);
        lemma_seeds_flat(seeds, count);
        let before = seed_steps(seeds.drop_last(), count);
        let all = seed_steps(seeds, count);
        assert forall|i: int| 0 <= i < all.len() implies #[trigger] explained(graph, all, i) by {
            assert(all[i].hops == 0);
            if i < before.len() {
                assert(explained(graph, before, i));
                assert(all[i] == before[i]);
            }
        }
        assert forall|i: int, j: int| 0 <= i < j < all.len() implies (#[trigger] all[i]).index != (
        #[trigger] all[j]).index by {
            assert(all[i] == before[i]);
            if j < before.len() {
                assert(all[j] == before[j]);
            }
        }
    }
}

/// A walk reaches every section at most once, goes no further than it may, and says of each
/// how it was reached: by an edge that is there, followed the way it says, from a section one
/// hop nearer. It grows beyond the seeds only up to the limit.
pub proof fn a_walk_says_how_it_went(
    graph: Graph,
    seeds: Seq<NodeIndex>,
    max_hops: usize,
    limit: usize,
)
    ensures
        ({
            let walk = graph.walk_of(seeds, max_hops, limit);
            let start = seed_steps(seeds, graph.nodes().len() as int);
            &&& forall|i: int| 0 <= i < walk.len() ==> #[trigger] explained(graph, walk, i)
            &&& forall|i: int| 0 <= i < walk.len() ==> (#[trigger] walk[i]).hops <= max_hops
            &&& forall|i: int, j: int|
                0 <= i < j < walk.len() ==> (#[trigger] walk[i]).index != (
                #[trigger] walk[j]).index
            &&& walk.len() <= limit || walk == start
        }),
{
    lemma_seeds_told(graph, seeds, max_hops);
    let start = seed_steps(seeds, graph.nodes().len() as int);
    lemma_walked_told(graph, start, 0, max_hops, limit);
    let walk = graph.walk_of(seeds, max_hops, limit);
    if walk.len() == start.len() {
        assert(walk.take(start.len() as int) == walk);
    }
}

/// A walk starts at its seeds: those that are sections, each once and in their order.
pub proof fn seeds_come_first_and_once(seeds: Seq<NodeIndex>, count: int, index: NodeIndex)
    ensures
        reached(seed_steps(seeds, count), index) <==> index < count && seeds.contains(index),
    decreases seeds.len(),
{
    if seeds.len() > 0 {
        let rest = seeds.drop_last();
        seeds_come_first_and_once(rest, count, index);
        seeds_come_first_and_once(rest, count, seeds.last());
        let before = seed_steps(rest, count);
        let all = seed_steps(seeds, count);
        if rest.contains(index) {
            let k = choose|k: int| 0 <= k < rest.len() && rest[k] == index;
            assert(seeds[k] == index);
        }
        if seeds.contains(index) && !rest.contains(index) {
            let k = choose|k: int| 0 <= k < seeds.len() && seeds[k] == index;
            if k < rest.len() {
                assert(rest[k] == index);
            }
            assert(seeds.last() == index);
        }
        if seeds.last() == index {
            assert(seeds[seeds.len() - 1] == index);
        }
        if reached(before, index) {
            let i = choose|i: int| 0 <= i < before.len() && (#[trigger] before[i]).index == index;
            assert(all[i].index == index);
        }
        if seeds.last() == index && index < count && !reached(before, index) {
            assert(all[before.len() as int].index == index);
        }
        if reached(all, index) && !reached(before, index) {
            let i = choose|i: int| 0 <= i < all.len() && (#[trigger] all[i]).index == index;
            if i < before.len() {
                assert(before[i].index == index);
            }
        }
    }
}

} // verus!
