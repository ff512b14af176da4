//! Communities by modularity optimisation.
//!
//! Each level moves every section to the neighbouring community that it fits best,
//! then contracts each community to a single node and does it again. Weights are
//! whole hundredths, so every comparison is exact, and ties go to the lowest
//! community: the partition depends on the graph alone.
//!
//! A row lists, for one node, the nodes it is joined to and the weight of each edge.
//! An edge stands in the rows of both of its ends, and a loop stands in its own row
//! twice, so that the sum of a row is the node's degree.

use vstd::prelude::*;

use crate::graph::{
    adjacency_holds_both_ways, both_ways, lemma_edges_join, relation_weight, times, Edge, Graph,
    NodeIndex, RelationType,
};

verus! {

/// The most sweeps over the nodes of one level.
pub const MAX_SWEEPS: u64 = 30;

/// Weights above this could not be compared without overflow.
pub const WEIGHT_LIMIT: u64 = 0x4000_0000_0000_0000;

/// The neighbours of one node, each with the weight of an edge.
pub type Row = Vec<(usize, u64)>;

pub open spec fn rows(v: Seq<Row>) -> Seq<Seq<(usize, u64)>> {
    Seq::new(v.len(), |i: int| v[i]@)
}

/// The degree of a node: the sum of its row.
pub open spec fn row_sum(row: Seq<(usize, u64)>) -> nat
    decreases row.len(),
{
    if row.len() == 0 {
        0
    } else {
        row_sum(row.drop_last()) + row.last().1 as nat
    }
}

/// The sum of all degrees.
pub open spec fn total(adj: Seq<Seq<(usize, u64)>>) -> nat
    decreases adj.len(),
{
    if adj.len() == 0 {
        0
    } else {
        total(adj.drop_last()) + row_sum(adj.last())
    }
}

/// Whether every edge leads to a node.
pub open spec fn inside(adj: Seq<Seq<(usize, u64)>>) -> bool {
    forall|u: int, k: int|
        0 <= u < adj.len() && 0 <= k < adj[u].len() ==> (#[trigger] adj[u][k]).0 < adj.len()
}

/// Whether every node has a label below the number of nodes.
pub open spec fn labelled(labels: Seq<usize>, count: int) -> bool {
    forall|u: int| 0 <= u < labels.len() ==> (#[trigger] labels[u]) < count
}

/// The weight from a node into the community `c`, loops aside.
pub open spec fn weight_into(
    row: Seq<(usize, u64)>,
    node: int,
    labels: Seq<usize>,
    c: usize,
) -> nat
    decreases row.len(),
{
    if row.len() == 0 {
        0
    } else {
        weight_into(row.drop_last(), node, labels, c) + (if row.last().0 != node && labels[
        row.last().0 as int] == c {
            row.last().1 as nat
        } else {
            0
        })
    }
}

/// The degrees of the first `k` nodes of community `c`, without the node `skip`.
pub open spec fn class_degree(
    adj: Seq<Seq<(usize, u64)>>,
    labels: Seq<usize>,
    c: usize,
    skip: int,
    k: int,
) -> nat
    decreases k,
{
    if k <= 0 {
        0
    } else {
        class_degree(adj, labels, c, skip, k - 1) + (if k - 1 != skip && labels[k - 1] == c {
            row_sum(adj[k - 1])
        } else {
            0
        })
    }
}

/// What modularity gains when a node joins `c`, up to terms that are the same for
/// every community and times the sum of all degrees.
pub open spec fn gain(
    adj: Seq<Seq<(usize, u64)>>,
    labels: Seq<usize>,
    node: int,
    c: usize,
) -> int {
    weight_into(adj[node], node, labels, c) * total(adj) - class_degree(
        adj,
        labels,
        c,
        node,
        adj.len() as int,
    ) * row_sum(adj[node])
}

/// Whether a node may join `c`: it is there already, or one of its neighbours is.
pub open spec fn may_join(
    adj: Seq<Seq<(usize, u64)>>,
    labels: Seq<usize>,
    node: int,
    c: usize,
    k: int,
) -> bool {
    c == labels[node] || exists|j: int|
        0 <= j < k && (#[trigger] adj[node][j]).0 != node && labels[adj[node][j].0 as int] == c
}

/// Whether `a` is the better choice: it gains more, or as much with a lower number.
pub open spec fn better(
    adj: Seq<Seq<(usize, u64)>>,
    labels: Seq<usize>,
    node: int,
    a: usize,
    b: usize,
) -> bool {
    gain(adj, labels, node, a) > gain(adj, labels, node, b) || gain(adj, labels, node, a) == gain(
        adj,
        labels,
        node,
        b,
    ) && a < b
}

/// Whether `c` is the best choice among the first `k` neighbours and staying.
pub open spec fn is_best(
    adj: Seq<Seq<(usize, u64)>>,
    labels: Seq<usize>,
    node: int,
    c: usize,
    k: int,
) -> bool {
    may_join(adj, labels, node, c, k) && forall|d: usize|
        #[trigger] may_join(adj, labels, node, d, k) && d != c ==> better(adj, labels, node, c, d)
}

/// The community that a node fits best.
pub open spec fn best(adj: Seq<Seq<(usize, u64)>>, labels: Seq<usize>, node: int) -> usize {
    choose|c: usize| is_best(adj, labels, node, c, adj[node].len() as int)
}

/// The labels after the first `k` nodes have moved, one after the other.
pub open spec fn sweep(adj: Seq<Seq<(usize, u64)>>, labels: Seq<usize>, k: int) -> Seq<usize>
    decreases k,
{
    if k <= 0 {
        labels
    } else {
        let before = sweep(adj, labels, k - 1);
        before.update(k - 1, best(adj, before, k - 1))
    }
}

/// The labels after sweeps until nothing moves, or `fuel` of them.
pub open spec fn settled(adj: Seq<Seq<(usize, u64)>>, labels: Seq<usize>, fuel: nat) -> Seq<usize>
    decreases fuel,
{
    if fuel == 0 {
        labels
    } else {
        let next = sweep(adj, labels, adj.len() as int);
        if next == labels {
            labels
        } else {
            settled(adj, next, (fuel - 1) as nat)
        }
    }
}

/// Every node for itself.
pub open spec fn apart(count: nat) -> Seq<usize> {
    Seq::new(count, |i: int| i as usize)
}

/// The labels in the order in which they first appear.
pub open spec fn seen_labels(labels: Seq<usize>) -> Seq<usize>
    decreases labels.len(),
{
    if labels.len() == 0 {
        Seq::empty()
    } else {
        let before = seen_labels(labels.drop_last());
        if before.contains(labels.last()) {
            before
        } else {
            before.push(labels.last())
        }
    }
}

/// The first place of a label in a list.
pub open spec fn place_of(list: Seq<usize>, label: usize) -> int
    decreases list.len(),
{
    if list.len() == 0 || list[0] == label {
        0
    } else {
        1 + place_of(list.drop_first(), label)
    }
}

/// The labels renumbered from zero, in order of first appearance.
pub open spec fn compacted(labels: Seq<usize>) -> Seq<usize> {
    Seq::new(labels.len(), |i: int| place_of(seen_labels(labels), labels[i]) as usize)
}

/// The labels of one level before they are renumbered.
pub open spec fn level_labels(adj: Seq<Seq<(usize, u64)>>) -> Seq<usize> {
    if total(adj) == 0 {
        apart(adj.len())
    } else {
        settled(adj, apart(adj.len()), MAX_SWEEPS as nat)
    }
}

/// `row` with every node replaced by its label.
pub open spec fn relabelled(row: Seq<(usize, u64)>, labels: Seq<usize>) -> Seq<(usize, u64)> {
    Seq::new(row.len(), |k: int| (labels[row[k].0 as int], row[k].1))
}

/// The row of the community `c`: the rows of its first members, relabelled.
pub open spec fn merged_row(
    adj: Seq<Seq<(usize, u64)>>,
    labels: Seq<usize>,
    c: int,
    k: int,
) -> Seq<(usize, u64)>
    decreases k,
{
    if k <= 0 {
        Seq::empty()
    } else {
        merged_row(adj, labels, c, k - 1) + (if labels[k - 1] == c {
            relabelled(adj[k - 1], labels)
        } else {
            Seq::empty()
        })
    }
}

/// Each community contracted to a single node.
pub open spec fn contracted(adj: Seq<Seq<(usize, u64)>>, labels: Seq<usize>, count: nat) -> Seq<
    Seq<(usize, u64)>,
> {
    Seq::new(count, |c: int| merged_row(adj, labels, c, adj.len() as int))
}

/// The labels of the nodes that an assignment names.
pub open spec fn reassigned(assignment: Seq<usize>, labels: Seq<usize>) -> Seq<usize> {
    Seq::new(assignment.len(), |i: int| labels[assignment[i] as int])
}

/// Levels until one merges nothing.
pub open spec fn levels(adj: Seq<Seq<(usize, u64)>>, assignment: Seq<usize>) -> Seq<usize>
    decreases adj.len(),
{
    let raw = level_labels(adj);
    let count = seen_labels(raw).len();
    if count >= adj.len() {
        assignment
    } else {
        levels(
            contracted(adj, compacted(raw), count),
            reassigned(assignment, compacted(raw)),
        )
    }
}

/// The community of each node, numbered from zero.
pub open spec fn communities_of(adj: Seq<Seq<(usize, u64)>>) -> Seq<usize> {
    compacted(levels(adj, apart(adj.len())))
}

// ---------------------------------------------------------------------------
// Facts about sums
// ---------------------------------------------------------------------------

proof fn lemma_weight_into(row: Seq<(usize, u64)>, node: int, labels: Seq<usize>, c: usize)
    ensures
        weight_into(row, node, labels, c) <= row_sum(row),
    decreases row.len(),
{
    if row.len() > 0 {
        lemma_weight_into(row.drop_last(), node, labels, c);
    }
}

proof fn lemma_row_in_total(adj: Seq<Seq<(usize, u64)>>, u: int)
    requires
        0 <= u < adj.len(),
    ensures
        row_sum(adj[u]) <= total(adj),
    decreases adj.len(),
{
    if u < adj.len() - 1 {
        lemma_row_in_total(adj.drop_last(), u);
    }
}

proof fn lemma_class_in_total(
    adj: Seq<Seq<(usize, u64)>>,
    labels: Seq<usize>,
    c: usize,
    skip: int,
    k: int,
)
    requires
        0 <= k <= adj.len(),
    ensures
        class_degree(adj, labels, c, skip, k) <= total(adj.take(k)),
    decreases k,
{
    if k > 0 {
        lemma_class_in_total(adj, labels, c, skip, k - 1);
        assert(adj.take(k).drop_last() == adj.take(k - 1));
        assert(adj.take(k).last() == adj[k - 1]);
    }
}

proof fn lemma_class_split(
    adj: Seq<Seq<(usize, u64)>>,
    labels: Seq<usize>,
    c: usize,
    node: int,
    k: int,
)
    requires
        0 <= node,
        0 <= k <= adj.len(),
    ensures
        class_degree(adj, labels, c, -1, k) == class_degree(adj, labels, c, node, k) + (if node < k
            && labels[node] == c {
            row_sum(adj[node])
        } else {
            0
        }),
    decreases k,
{
    if k > 0 {
        lemma_class_split(adj, labels, c, node, k - 1);
    }
}

proof fn lemma_class_without(
    adj: Seq<Seq<(usize, u64)>>,
    labels: Seq<usize>,
    c: usize,
    node: int,
    b: usize,
    k: int,
)
    requires
        0 <= node < labels.len(),
        0 <= k <= labels.len(),
    ensures
        class_degree(adj, labels.update(node, b), c, node, k) == class_degree(
            adj,
            labels,
            c,
            node,
            k,
        ),
    decreases k,
{
    if k > 0 {
        lemma_class_without(adj, labels, c, node, b, k - 1);
    }
}

proof fn lemma_take_total(adj: Seq<Seq<(usize, u64)>>, k: int)
    requires
        0 <= k <= adj.len(),
    ensures
        total(adj.take(k)) <= total(adj),
    decreases adj.len() - k,
{
    if k < adj.len() {
        lemma_take_total(adj, k + 1);
        assert(adj.take(k + 1).drop_last() == adj.take(k));
    } else {
        assert(adj.take(k) == adj);
    }
}

proof fn lemma_row_prefix(row: Seq<(usize, u64)>, k: int)
    requires
        0 <= k <= row.len(),
    ensures
        row_sum(row.take(k)) <= row_sum(row),
    decreases row.len() - k,
{
    if k < row.len() {
        lemma_row_prefix(row, k + 1);
        assert(row.take(k + 1).drop_last() == row.take(k));
    } else {
        assert(row.take(k) == row);
    }
}

proof fn lemma_best_unique(
    adj: Seq<Seq<(usize, u64)>>,
    labels: Seq<usize>,
    node: int,
    a: usize,
    b: usize,
    k: int,
)
    requires
        is_best(adj, labels, node, a, k),
        is_best(adj, labels, node, b, k),
    ensures
        a == b,
{
    if a != b {
        assert(better(adj, labels, node, a, b));
        assert(better(adj, labels, node, b, a));
    }
}

// ---------------------------------------------------------------------------
// One node
// ---------------------------------------------------------------------------

fn sum_row(row: &Row) -> (r: u64)
    requires
        row_sum(row@) < WEIGHT_LIMIT,
    ensures
        r == row_sum(row@),
{
    let mut sum: u64 = 0;
    let mut k: usize = 0;
    assert(row@.take(0) == Seq::<(usize, u64)>::empty());
    while k < row.len()
        invariant
            0 <= k <= row.len(),
            row_sum(row@) < WEIGHT_LIMIT,
            sum == row_sum(row@.take(k as int)),
        decreases row.len() - k,
    {
        assert(row@.take(k + 1).drop_last() == row@.take(k as int));
        assert(row@.take(k + 1).last() == row@[k as int]);
        proof {
            lemma_row_prefix(row@, k + 1);
        }
        sum = sum + row[k].1;
        k += 1;
    }
    assert(row@.take(row.len() as int) == row@);
    sum
}

fn weight_of(row: &Row, node: usize, labels: &Vec<usize>, c: usize) -> (r: u64)
    requires
        row_sum(row@) < WEIGHT_LIMIT,
        forall|k: int| 0 <= k < row.len() ==> (#[trigger] row@[k]).0 < labels.len(),
    ensures
        r == weight_into(row@, node as int, labels@, c),
{
    let mut sum: u64 = 0;
    let mut k: usize = 0;
    assert(row@.take(0) == Seq::<(usize, u64)>::empty());
    while k < row.len()
        invariant
            0 <= k <= row.len(),
            row_sum(row@) < WEIGHT_LIMIT,
            forall|j: int| 0 <= j < row.len() ==> (#[trigger] row@[j]).0 < labels.len(),
            sum == weight_into(row@.take(k as int), node as int, labels@, c),
        decreases row.len() - k,
    {
        assert(row@.take(k + 1).drop_last() == row@.take(k as int));
        assert(row@.take(k + 1).last() == row@[k as int]);
        proof {
            lemma_row_prefix(row@, k + 1);
            lemma_weight_into(row@.take(k + 1), node as int, labels@, c);
        }
        let (other, weight) = row[k];
        if other != node && labels[other] == c {
            sum = sum + weight;
        }
        k += 1;
    }
    assert(row@.take(row.len() as int) == row@);
    sum
}

/// Whether degrees and class degrees are what they are called.
pub open spec fn tables_hold(
    adj: Seq<Seq<(usize, u64)>>,
    labels: Seq<usize>,
    degree: Seq<u64>,
    class: Seq<u64>,
) -> bool {
    &&& degree.len() == adj.len()
    &&& class.len() == adj.len()
    &&& forall|u: int| 0 <= u < adj.len() ==> (#[trigger] degree[u]) == row_sum(adj[u])
    &&& forall|c: usize|
        c < adj.len() ==> (#[trigger] class[c as int]) == class_degree(
            adj,
            labels,
            c,
            -1,
            adj.len() as int,
        )
}

fn gain_of(
    adj: &Vec<Row>,
    labels: &Vec<usize>,
    degree: &Vec<u64>,
    class: &Vec<u64>,
    sum: u64,
    node: usize,
    c: usize,
) -> (r: i128)
    requires
        inside(rows(adj@)),
        labels.len() == adj.len(),
        labelled(labels@, adj.len() as int),
        tables_hold(rows(adj@), labels@, degree@, class@),
        sum == total(rows(adj@)),
        sum < WEIGHT_LIMIT,
        node < adj.len(),
        c < adj.len(),
    ensures
        r == gain(rows(adj@), labels@, node as int, c),
{
    let ghost views = rows(adj@);
    let ghost n = adj.len() as int;
    proof {
        lemma_row_in_total(views, node as int);
        lemma_weight_into(views[node as int], node as int, labels@, c);
        lemma_class_split(views, labels@, c, node as int, n);
        lemma_class_in_total(views, labels@, c, node as int, n);
        lemma_class_in_total(views, labels@, c, -1, n);
        assert(views.take(n) == views);
        assert(views[node as int] == adj@[node as int]@);
        assert forall|k: int| 0 <= k < adj@[node as int].len() implies (
        #[trigger] adj@[node as int]@[k]).0 < labels.len() by {
            assert(views[node as int][k].0 < views.len());
        }
    }
    let into: u64 = weight_of(&adj[node], node, labels, c);
    let own: u64 = degree[node];
    let rest: u64 = if labels[node] == c {
        class[c] - own
    } else {
        class[c]
    };
    assert(rest == class_degree(views, labels@, c, node as int, n));
    proof {
        let limit = WEIGHT_LIMIT as int;
        assert(into * sum <= limit * limit) by (nonlinear_arith)
            requires
                0 <= into <= limit,
                0 <= sum <= limit,
        ;
        assert(rest * own <= limit * limit) by (nonlinear_arith)
            requires
                0 <= rest <= limit,
                0 <= own <= limit,
        ;
        assert(0 <= into * sum) by (nonlinear_arith)
            requires
                0 <= into,
                0 <= sum,
        ;
        assert(0 <= rest * own) by (nonlinear_arith)
            requires
                0 <= rest,
                0 <= own,
        ;
        assert(limit * limit == 0x1000_0000_0000_0000_0000_0000_0000_0000int) by (nonlinear_arith)
            requires
                limit == 0x4000_0000_0000_0000,
        ;
    }
    (into as i128) * (sum as i128) - (rest as i128) * (own as i128)
}

fn best_label(
    adj: &Vec<Row>,
    labels: &Vec<usize>,
    degree: &Vec<u64>,
    class: &Vec<u64>,
    sum: u64,
    node: usize,
) -> (r: usize)
    requires
        inside(rows(adj@)),
        labels.len() == adj.len(),
        labelled(labels@, adj.len() as int),
        tables_hold(rows(adj@), labels@, degree@, class@),
        sum == total(rows(adj@)),
        sum < WEIGHT_LIMIT,
        node < adj.len(),
    ensures
        r == best(rows(adj@), labels@, node as int),
        is_best(rows(adj@), labels@, node as int, r, rows(adj@)[node as int].len() as int),
        r < adj.len(),
{
    let ghost views = rows(adj@);
    let mut found: usize = labels[node];
    let mut found_gain: i128 = gain_of(adj, labels, degree, class, sum, node, found);
    let mut k: usize = 0;
    assert(views[node as int] == adj@[node as int]@);
    while k < adj[node].len()
        invariant
            0 <= k <= adj@[node as int].len(),
            views == rows(adj@),
            views[node as int] == adj@[node as int]@,
            inside(views),
            labels.len() == adj.len(),
            labelled(labels@, adj.len() as int),
            tables_hold(views, labels@, degree@, class@),
            sum == total(views),
            sum < WEIGHT_LIMIT,
            node < adj.len(),
            found < adj.len(),
            found_gain == gain(views, labels@, node as int, found),
            is_best(views, labels@, node as int, found, k as int),
        decreases adj@[node as int].len() - k,
    {
        let other: usize = adj[node][k].0;
        let ghost before = found;
        assert(views[node as int][k as int].0 == other);
        if other != node {
            let candidate: usize = labels[other];
            let candidate_gain: i128 = gain_of(adj, labels, degree, class, sum, node, candidate);
            if candidate_gain > found_gain || candidate_gain == found_gain && candidate < found {
                found = candidate;
                found_gain = candidate_gain;
            }
        }
        proof {
            assert(may_join(views, labels@, node as int, before, k as int));
            assert(may_join(views, labels@, node as int, before, k + 1)) by {
                if before != labels@[node as int] {
                    let j = choose|j: int|
                        0 <= j < k && (#[trigger] views[node as int][j]).0 != node && labels@[
                        views[node as int][j].0 as int] == before;
                    assert(views[node as int][j].0 != node);
                }
            }
            if found != before {
                assert(views[node as int][k as int].0 != node);
                assert(may_join(views, labels@, node as int, found, k + 1));
            }
            assert forall|d: usize|
                #[trigger] may_join(views, labels@, node as int, d, k + 1) && d != found implies better(
                views,
                labels@,
                node as int,
                found,
                d,
            ) by {
                if may_join(views, labels@, node as int, d, k as int) {
                    if d != before {
                        assert(better(views, labels@, node as int, before, d));
                    }
                } else {
                    let j = choose|j: int|
                        0 <= j < k + 1 && (#[trigger] views[node as int][j]).0 != node && labels@[
                        views[node as int][j].0 as int] == d;
                    if j < k {
                        assert(may_join(views, labels@, node as int, d, k as int));
                    }
                    assert(j == k);
                }
            }
        }
        k += 1;
    }
    proof {
        let c = best(views, labels@, node as int);
        lemma_best_unique(views, labels@, node as int, found, c, k as int);
    }
    found
}

// ---------------------------------------------------------------------------
// One level
// ---------------------------------------------------------------------------

/// Moves every node once. Returns whether any moved.
fn sweep_nodes(
    adj: &Vec<Row>,
    labels: &mut Vec<usize>,
    degree: &Vec<u64>,
    class: &mut Vec<u64>,
    sum: u64,
) -> (moved: bool)
    requires
        inside(rows(adj@)),
        old(labels).len() == adj.len(),
        labelled(old(labels)@, adj.len() as int),
        tables_hold(rows(adj@), old(labels)@, degree@, old(class)@),
        sum == total(rows(adj@)),
        sum < WEIGHT_LIMIT,
    ensures
        final(labels)@ == sweep(rows(adj@), old(labels)@, adj.len() as int),
        final(labels).len() == adj.len(),
        labelled(final(labels)@, adj.len() as int),
        tables_hold(rows(adj@), final(labels)@, degree@, final(class)@),
        moved == (final(labels)@ != old(labels)@),
{
    let ghost views = rows(adj@);
    let ghost start = labels@;
    let ghost n = adj.len() as int;
    let mut moved: bool = false;
    let mut node: usize = 0;
    while node < adj.len()
        invariant
            0 <= node <= adj.len(),
            views == rows(adj@),
            n == adj.len(),
            inside(views),
            labels.len() == adj.len(),
            start.len() == adj.len(),
            labelled(labels@, n),
            tables_hold(views, labels@, degree@, class@),
            sum == total(views),
            sum < WEIGHT_LIMIT,
            labels@ == sweep(views, start, node as int),
            forall|j: int| node <= j < n ==> labels@[j] == start[j],
            moved ==> exists|j: int| 0 <= j < node && labels@[j] != start[j],
            !moved ==> labels@ == start,
        decreases adj.len() - node,
    {
        let current: usize = labels[node];
        let target: usize = best_label(adj, labels, degree, class, sum, node);
        let ghost before = labels@;
        let ghost old_class = class@;
        let own: u64 = degree[node];
        if target != current {
            proof {
                lemma_class_split(views, before, current, node as int, n);
                lemma_class_split(views, before, target, node as int, n);
                lemma_class_in_total(views, before.update(node as int, target), target, -1, n);
                lemma_class_without(views, before, target, node as int, target, n);
                lemma_class_split(
                    views,
                    before.update(node as int, target),
                    target,
                    node as int,
                    n,
                );
                assert(views.take(n) == views);
            }
            let less: u64 = class[current] - own;
            class.set(current, less);
            let more: u64 = class[target] + own;
            class.set(target, more);
            labels.set(node, target);
            moved = true;
            proof {
                assert(labels@[node as int] != start[node as int]);
                assert forall|c: usize| c < n implies (#[trigger] class@[c as int]) == class_degree(
                    views,
                    labels@,
                    c,
                    -1,
                    n,
                ) by {
                    lemma_class_without(views, before, c, node as int, target, n);
                    lemma_class_split(views, labels@, c, node as int, n);
                    lemma_class_split(views, before, c, node as int, n);
                    assert(old_class[c as int] == class_degree(views, before, c, -1, n));
                }
            }
        } else {
            assert(before.update(node as int, target) == before);
            if moved {
                let ghost j = choose|j: int| 0 <= j < node && labels@[j] != start[j];
                assert(labels@[j] != start[j]);
            }
        }
        node += 1;
    }
    moved
}

proof fn lemma_class_apart(adj: Seq<Seq<(usize, u64)>>, c: usize, k: int)
    requires
        0 <= k <= adj.len(),
        adj.len() <= usize::MAX,
        c < adj.len(),
    ensures
        class_degree(adj, apart(adj.len()), c, -1, k) == (if c < k {
            row_sum(adj[c as int])
        } else {
            0
        }),
    decreases k,
{
    if k > 0 {
        lemma_class_apart(adj, c, k - 1);
        assert(apart(adj.len())[k - 1] == (k - 1) as usize);
    }
}

fn numbers(count: usize) -> (r: Vec<usize>)
    ensures
        r@ == apart(count as nat),
{
    let mut r: Vec<usize> = Vec::new();
    let mut i: usize = 0;
    while i < count
        invariant
            0 <= i <= count,
            r.len() == i,
            forall|k: int| 0 <= k < i ==> r@[k] == k as usize,
        decreases count - i,
    {
        r.push(i);
        i += 1;
    }
    assert(r@ == apart(count as nat));
    r
}

/// The labels of one level.
fn level_of(adj: &Vec<Row>) -> (r: Vec<usize>)
    requires
        inside(rows(adj@)),
        total(rows(adj@)) < WEIGHT_LIMIT,
    ensures
        r@ == level_labels(rows(adj@)),
        r.len() == adj.len(),
        labelled(r@, adj.len() as int),
{
    let ghost views = rows(adj@);
    let mut degree: Vec<u64> = Vec::new();
    let mut class: Vec<u64> = Vec::new();
    let mut sum: u64 = 0;
    let mut i: usize = 0;
    assert(views.take(0) == Seq::<Seq<(usize, u64)>>::empty());
    while i < adj.len()
        invariant
            0 <= i <= adj.len(),
            views == rows(adj@),
            total(views) < WEIGHT_LIMIT,
            degree.len() == i,
            class.len() == i,
            sum == total(views.take(i as int)),
            forall|u: int| 0 <= u < i ==> (#[trigger] degree@[u]) == row_sum(views[u]),
            forall|u: int| 0 <= u < i ==> (#[trigger] class@[u]) == row_sum(views[u]),
        decreases adj.len() - i,
    {
        assert(views.take(i + 1).drop_last() == views.take(i as int));
        assert(views.take(i + 1).last() == adj@[i as int]@);
        proof {
            lemma_take_total(views, i + 1);
        }
        let own: u64 = sum_row(&adj[i]);
        sum = sum + own;
        degree.push(own);
        class.push(own);
        i += 1;
    }
    assert(views.take(adj.len() as int) == views);
    let mut labels = numbers(adj.len());
    if sum == 0 {
        return labels;
    }
    proof {
        assert forall|c: usize| c < views.len() implies (#[trigger] class@[c as int])
            == class_degree(views, labels@, c, -1, views.len() as int) by {
            lemma_class_apart(views, c, views.len() as int);
        }
    }
    let mut fuel: u64 = MAX_SWEEPS;
    let ghost goal = settled(views, labels@, MAX_SWEEPS as nat);
    while fuel > 0
        invariant_except_break
            settled(views, labels@, fuel as nat) == goal,
        invariant
            views == rows(adj@),
            inside(views),
            labels.len() == adj.len(),
            labelled(labels@, adj.len() as int),
            tables_hold(views, labels@, degree@, class@),
            sum == total(views),
            sum < WEIGHT_LIMIT,
        ensures
            labels@ == goal,
        decreases fuel,
    {
        let ghost before = labels@;
        let moved = sweep_nodes(adj, &mut labels, &degree, &mut class, sum);
        if !moved {
            assert(settled(views, before, fuel as nat) == before);
            break;
        }
        fuel -= 1;
    }
    labels
}

proof fn lemma_seen(labels: Seq<usize>)
    ensures
        seen_labels(labels).no_duplicates(),
        seen_labels(labels).len() <= labels.len(),
        forall|l: usize| #[trigger] seen_labels(labels).contains(l) <==> labels.contains(l),
    decreases labels.len(),
{
    if labels.len() > 0 {
        let rest = labels.drop_last();
        lemma_seen(rest);
        let before = seen_labels(rest);
        let all = seen_labels(labels);
        assert forall|l: usize| #[trigger] all.contains(l) <==> labels.contains(l) by {
            assert(before.contains(l) <==> rest.contains(l));
            if labels.contains(l) {
                let i = choose|i: int| 0 <= i < labels.len() && labels[i] == l;
                if i < rest.len() {
                    assert(rest[i] == l);
                    assert(rest.contains(l));
                    let k = choose|k: int| 0 <= k < before.len() && before[k] == l;
                    assert(all[k] == l);
                } else if !before.contains(l) {
                    assert(all[before.len() as int] == l);
                }
            }
            if all.contains(l) {
                let k = choose|k: int| 0 <= k < all.len() && all[k] == l;
                if k < before.len() {
                    assert(before[k] == l);
                    assert(before.contains(l));
                    let i = choose|i: int| 0 <= i < rest.len() && rest[i] == l;
                    assert(labels[i] == l);
                } else {
                    assert(labels[labels.len() - 1] == l);
                }
            }
        }
    }
}

proof fn lemma_place(list: Seq<usize>, label: usize)
    requires
        list.contains(label),
    ensures
        0 <= place_of(list, label) < list.len(),
        list[place_of(list, label)] == label,
    decreases list.len(),
{
    if list[0] != label {
        let rest = list.drop_first();
        let i = choose|i: int| 0 <= i < list.len() && list[i] == label;
        assert(rest[i - 1] == label);
        lemma_place(rest, label);
    }
}

fn place(list: &Vec<usize>, label: usize) -> (r: usize)
    requires
        list@.contains(label),
    ensures
        r == place_of(list@, label),
        r < list.len(),
{
    let mut i: usize = 0;
    assert(list@.skip(0) == list@);
    proof {
        lemma_place(list@, label);
    }
    while i < list.len() && list[i] != label
        invariant
            0 <= i <= list.len(),
            list@.contains(label),
            0 <= place_of(list@, label) < list.len(),
            list@[place_of(list@, label)] == label,
            place_of(list@, label) == i + place_of(list@.skip(i as int), label),
        decreases list.len() - i,
    {
        assert(list@.skip(i as int)[0] == list@[i as int]);
        assert(list@.skip(i as int).drop_first() == list@.skip(i + 1));
        i += 1;
    }
    if i < list.len() {
        assert(list@.skip(i as int)[0] == label);
    }
    i
}

/// Renumbers labels from zero, in order of first appearance, and counts them.
fn compact(labels: &Vec<usize>) -> (r: (Vec<usize>, usize))
    ensures
        r.0@ == compacted(labels@),
        r.1 == seen_labels(labels@).len(),
{
    let mut seen: Vec<usize> = Vec::new();
    let mut i: usize = 0;
    assert(labels@.take(0) == Seq::<usize>::empty());
    while i < labels.len()
        invariant
            0 <= i <= labels.len(),
            seen@ == seen_labels(labels@.take(i as int)),
        decreases labels.len() - i,
    {
        assert(labels@.take(i + 1).drop_last() == labels@.take(i as int));
        assert(labels@.take(i + 1).last() == labels@[i as int]);
        if !has_label(&seen, labels[i]) {
            seen.push(labels[i]);
        }
        i += 1;
    }
    assert(labels@.take(labels.len() as int) == labels@);
    proof {
        lemma_seen(labels@);
    }
    let mut out: Vec<usize> = Vec::new();
    let mut k: usize = 0;
    while k < labels.len()
        invariant
            0 <= k <= labels.len(),
            seen@ == seen_labels(labels@),
            forall|l: usize| #[trigger] seen@.contains(l) <==> labels@.contains(l),
            out.len() == k,
            forall|j: int| 0 <= j < k ==> out@[j] == place_of(seen@, labels@[j]) as usize,
        decreases labels.len() - k,
    {
        assert(labels@.contains(labels@[k as int]));
        assert(seen@.contains(labels@[k as int]));
        out.push(place(&seen, labels[k]));
        k += 1;
    }
    assert(out@ == compacted(labels@));
    let count: usize = seen.len();
    (out, count)
}

fn has_label(list: &Vec<usize>, label: usize) -> (r: bool)
    ensures
        r == list@.contains(label),
{
    let mut i: usize = 0;
    while i < list.len()
        invariant
            0 <= i <= list.len(),
            forall|j: int| 0 <= j < i ==> list@[j] != label,
        decreases list.len() - i,
    {
        if list[i] == label {
            assert(list@[i as int] == label);
            return true;
        }
        i += 1;
    }
    false
}

/// Renumbering keeps apart what is apart and together what is together, and uses
/// the numbers from zero up.
pub proof fn renumbering_keeps_the_partition(labels: Seq<usize>)
    requires
        labels.len() <= usize::MAX,
    ensures
        labelled(compacted(labels), seen_labels(labels).len() as int),
        forall|i: int, j: int|
            0 <= i < labels.len() && 0 <= j < labels.len() ==> ((#[trigger] compacted(labels)[i]
                == #[trigger] compacted(labels)[j]) <==> labels[i] == labels[j]),
        forall|c: usize|
            c < seen_labels(labels).len() ==> #[trigger] compacted(labels).contains(c),
{
    lemma_seen(labels);
    let seen = seen_labels(labels);
    let out = compacted(labels);
    assert forall|i: int| 0 <= i < labels.len() implies (#[trigger] out[i]) < seen.len() && seen[
    out[i] as int] == labels[i] by {
        assert(labels.contains(labels[i]));
        assert(seen.contains(labels[i]));
        lemma_place(seen, labels[i]);
    }
    assert forall|c: usize| c < seen.len() implies #[trigger] out.contains(c) by {
        let l = seen[c as int];
        assert(seen.contains(l));
        assert(labels.contains(l));
        let i = choose|i: int| 0 <= i < labels.len() && labels[i] == l;
        assert(seen[out[i] as int] == l);
        assert(out[i] == c);
    }
}

// ---------------------------------------------------------------------------
// Contraction
// ---------------------------------------------------------------------------

fn relabel(row: &Row, labels: &Vec<usize>) -> (r: Row)
    requires
        forall|k: int| 0 <= k < row.len() ==> (#[trigger] row@[k]).0 < labels.len(),
    ensures
        r@ == relabelled(row@, labels@),
{
    let mut r: Row = Vec::new();
    let mut k: usize = 0;
    while k < row.len()
        invariant
            0 <= k <= row.len(),
            forall|j: int| 0 <= j < row.len() ==> (#[trigger] row@[j]).0 < labels.len(),
            r.len() == k,
            forall|j: int| 0 <= j < k ==> r@[j] == (labels@[row@[j].0 as int], row@[j].1),
        decreases row.len() - k,
    {
        let (other, weight) = row[k];
        r.push((labels[other], weight));
        k += 1;
    }
    assert(r@ == relabelled(row@, labels@));
    r
}

/// Contracts each community to a single node.
fn contract(adj: &Vec<Row>, labels: &Vec<usize>, count: usize) -> (r: Vec<Row>)
    requires
        inside(rows(adj@)),
        labels.len() == adj.len(),
        labelled(labels@, count as int),
    ensures
        rows(r@) == contracted(rows(adj@), labels@, count as nat),
{
    let ghost views = rows(adj@);
    let mut r: Vec<Row> = Vec::new();
    let mut c: usize = 0;
    while c < count
        invariant
            0 <= c <= count,
            r.len() == c,
            forall|j: int| 0 <= j < c ==> (#[trigger] r@[j])@ == Seq::<(usize, u64)>::empty(),
        decreases count - c,
    {
        r.push(Vec::new());
        c += 1;
    }
    let mut node: usize = 0;
    while node < adj.len()
        invariant
            0 <= node <= adj.len(),
            views == rows(adj@),
            inside(views),
            labels.len() == adj.len(),
            labelled(labels@, count as int),
            r.len() == count,
            forall|j: int|
                0 <= j < count ==> (#[trigger] r@[j])@ == merged_row(
                    views,
                    labels@,
                    j,
                    node as int,
                ),
        decreases adj.len() - node,
    {
        assert(views[node as int] == adj@[node as int]@);
        assert forall|k: int| 0 <= k < adj@[node as int].len() implies (
        #[trigger] adj@[node as int]@[k]).0 < labels.len() by {
            assert(views[node as int][k].0 < views.len());
        }
        let mut more = relabel(&adj[node], labels);
        let home: usize = labels[node];
        let ghost before = r@;
        let mut row: Row = Vec::new();
        std::mem::swap(&mut row, &mut r[home]);
        row.append(&mut more);
        r.set(home, row);
        assert forall|j: int| 0 <= j < count implies (#[trigger] r@[j])@ == merged_row(
            views,
            labels@,
            j,
            node + 1,
        ) by {
            assert(before[j]@ == merged_row(views, labels@, j, node as int));
            if j != home {
                assert(merged_row(views, labels@, j, node as int) + Seq::<(usize, u64)>::empty()
                    == merged_row(views, labels@, j, node as int));
            }
        }
        node += 1;
    }
    assert(rows(r@) == contracted(views, labels@, count as nat));
    r
}

/// The sum of the degrees of the first communities, when `k` nodes were merged.
pub open spec fn merged_total(
    adj: Seq<Seq<(usize, u64)>>,
    labels: Seq<usize>,
    count: int,
    k: int,
) -> nat
    decreases count,
{
    if count <= 0 {
        0
    } else {
        merged_total(adj, labels, count - 1, k) + row_sum(merged_row(adj, labels, count - 1, k))
    }
}

proof fn lemma_row_sum_add(a: Seq<(usize, u64)>, b: Seq<(usize, u64)>)
    ensures
        row_sum(a + b) == row_sum(a) + row_sum(b),
    decreases b.len(),
{
    if b.len() == 0 {
        assert(a + b == a);
    } else {
        lemma_row_sum_add(a, b.drop_last());
        assert((a + b).drop_last() == a + b.drop_last());
        assert((a + b).last() == b.last());
    }
}

proof fn lemma_relabelled_sum(row: Seq<(usize, u64)>, labels: Seq<usize>)
    ensures
        row_sum(relabelled(row, labels)) == row_sum(row),
    decreases row.len(),
{
    if row.len() > 0 {
        lemma_relabelled_sum(row.drop_last(), labels);
        assert(relabelled(row, labels).drop_last() == relabelled(row.drop_last(), labels));
    }
}

proof fn lemma_merged_step(
    adj: Seq<Seq<(usize, u64)>>,
    labels: Seq<usize>,
    count: int,
    k: int,
)
    requires
        0 < k <= adj.len(),
        0 <= count,
    ensures
        merged_total(adj, labels, count, k) == merged_total(adj, labels, count, k - 1) + (if labels[
        k - 1] < count {
            row_sum(adj[k - 1])
        } else {
            0
        }),
    decreases count,
{
    if count > 0 {
        lemma_merged_step(adj, labels, count - 1, k);
        let c = count - 1;
        let before = merged_row(adj, labels, c, k - 1);
        if labels[k - 1] == c {
            lemma_row_sum_add(before, relabelled(adj[k - 1], labels));
            lemma_relabelled_sum(adj[k - 1], labels);
        } else {
            assert(before + Seq::<(usize, u64)>::empty() == before);
        }
    }
}

proof fn lemma_merged_all(adj: Seq<Seq<(usize, u64)>>, labels: Seq<usize>, count: int, k: int)
    requires
        0 <= k <= adj.len(),
        0 <= count,
        labels.len() == adj.len(),
        labelled(labels, count),
    ensures
        merged_total(adj, labels, count, k) == total(adj.take(k)),
    decreases k,
{
    if k > 0 {
        lemma_merged_step(adj, labels, count, k);
        lemma_merged_all(adj, labels, count, k - 1);
        assert(adj.take(k).drop_last() == adj.take(k - 1));
        assert(labels[k - 1] < count);
    } else {
        lemma_merged_none(adj, labels, count);
    }
}

proof fn lemma_merged_none(adj: Seq<Seq<(usize, u64)>>, labels: Seq<usize>, count: int)
    ensures
        merged_total(adj, labels, count, 0) == 0,
    decreases count,
{
    if count > 0 {
        lemma_merged_none(adj, labels, count - 1);
    }
}

proof fn lemma_contracted_total(
    adj: Seq<Seq<(usize, u64)>>,
    labels: Seq<usize>,
    count: nat,
    k: nat,
)
    requires
        k <= count,
    ensures
        total(contracted(adj, labels, count).take(k as int)) == merged_total(
            adj,
            labels,
            k as int,
            adj.len() as int,
        ),
    decreases k,
{
    let c = contracted(adj, labels, count);
    if k > 0 {
        lemma_contracted_total(adj, labels, count, (k - 1) as nat);
        assert(c.take(k as int).drop_last() == c.take(k - 1));
    }
}

/// Contraction keeps the weight of the graph.
pub proof fn contraction_preserves_total_weight(
    adj: Seq<Seq<(usize, u64)>>,
    labels: Seq<usize>,
    count: nat,
)
    requires
        labels.len() == adj.len(),
        labelled(labels, count as int),
    ensures
        total(contracted(adj, labels, count)) == total(adj),
{
    let c = contracted(adj, labels, count);
    lemma_contracted_total(adj, labels, count, count);
    lemma_merged_all(adj, labels, count as int, adj.len() as int);
    assert(c.take(count as int) == c);
    assert(adj.take(adj.len() as int) == adj);
}

proof fn lemma_merged_inside(
    adj: Seq<Seq<(usize, u64)>>,
    labels: Seq<usize>,
    count: int,
    c: int,
    k: int,
)
    requires
        inside(adj),
        labels.len() == adj.len(),
        labelled(labels, count),
        0 <= k <= adj.len(),
    ensures
        forall|j: int|
            0 <= j < merged_row(adj, labels, c, k).len() ==> (#[trigger] merged_row(
                adj,
                labels,
                c,
                k,
            )[j]).0 < count,
    decreases k,
{
    if k > 0 {
        lemma_merged_inside(adj, labels, count, c, k - 1);
        let before = merged_row(adj, labels, c, k - 1);
        let row = merged_row(adj, labels, c, k);
        assert forall|j: int| 0 <= j < row.len() implies (#[trigger] row[j]).0 < count by {
            if j < before.len() {
                assert(row[j] == before[j]);
            } else {
                let e = adj[k - 1][j - before.len()];
                assert(e.0 < adj.len());
                assert(row[j] == (labels[e.0 as int], e.1));
            }
        }
    }
}

proof fn lemma_contracted_inside(adj: Seq<Seq<(usize, u64)>>, labels: Seq<usize>, count: nat)
    requires
        inside(adj),
        labels.len() == adj.len(),
        labelled(labels, count as int),
    ensures
        inside(contracted(adj, labels, count)),
{
    let c = contracted(adj, labels, count);
    assert forall|u: int, k: int| 0 <= u < c.len() && 0 <= k < c[u].len() implies (
    #[trigger] c[u][k]).0 < c.len() by {
        lemma_merged_inside(adj, labels, count as int, u, adj.len() as int);
        assert(c[u][k] == merged_row(adj, labels, u, adj.len() as int)[k]);
    }
}

// ---------------------------------------------------------------------------
// All levels
// ---------------------------------------------------------------------------

/// The community of each node of a weighted graph, numbered from zero.
pub fn find_communities(adj: Vec<Row>) -> (r: Vec<usize>)
    requires
        inside(rows(adj@)),
        total(rows(adj@)) < WEIGHT_LIMIT,
    ensures
        r@ == communities_of(rows(adj@)),
{
    let ghost start = rows(adj@);
    let ghost goal = levels(start, apart(start.len()));
    let nodes: usize = adj.len();
    let mut adj = adj;
    let mut assignment = numbers(nodes);
    loop
        invariant_except_break
            levels(rows(adj@), assignment@) == goal,
        invariant
            inside(rows(adj@)),
            total(rows(adj@)) < WEIGHT_LIMIT,
            assignment.len() == nodes,
            labelled(assignment@, adj.len() as int),
        ensures
            assignment@ == goal,
        decreases adj.len(),
    {
        let ghost views = rows(adj@);
        let raw = level_of(&adj);
        let (labels, count) = compact(&raw);
        proof {
            renumbering_keeps_the_partition(raw@);
            lemma_seen(raw@);
        }
        if count >= adj.len() {
            break;
        }
        let mut next: Vec<usize> = Vec::new();
        let mut i: usize = 0;
        while i < assignment.len()
            invariant
                0 <= i <= assignment.len(),
                labelled(assignment@, labels.len() as int),
                labelled(labels@, count as int),
                next.len() == i,
                forall|k: int| 0 <= k < i ==> next@[k] == labels@[assignment@[k] as int],
            decreases assignment.len() - i,
        {
            next.push(labels[assignment[i]]);
            i += 1;
        }
        assert(next@ == reassigned(assignment@, labels@));
        assignment = next;
        let smaller = contract(&adj, &labels, count);
        proof {
            contraction_preserves_total_weight(views, labels@, count as nat);
            lemma_contracted_inside(views, labels@, count as nat);
            assert forall|u: int| 0 <= u < assignment.len() implies (#[trigger] assignment@[u])
                < count by {}
        }
        adj = smaller;
        assert(rows(adj@).len() == adj.len());
    }
    let (r, _) = compact(&assignment);
    r
}

/// The row of a section: its neighbours both ways, each with the weight of the edge.
pub open spec fn weighted(neighbours: Seq<(NodeIndex, Edge, bool)>) -> Seq<(usize, u64)> {
    Seq::new(
        neighbours.len(),
        |k: int| (neighbours[k].0, relation_weight(neighbours[k].1.relation)),
    )
}

impl Graph {
    /// The graph as rows of weights.
    pub open spec fn weights(self) -> Seq<Seq<(usize, u64)>> {
        Seq::new(
            self.nodes().len(),
            |i: int| weighted(both_ways(self.edges_from(i), self.edges_to(i))),
        )
    }

    /// The community of each section, numbered from zero.
    pub fn communities(&self) -> (r: Vec<usize>)
        requires
            self.well_formed(),
            total(self.weights()) < WEIGHT_LIMIT,
        ensures
            r@ == communities_of(self.weights()),
    {
        let ghost goal = self.weights();
        let count: usize = self.len();
        let mut adj: Vec<Row> = Vec::new();
        let mut i: usize = 0;
        while i < count
            invariant
                0 <= i <= count,
                count == self.nodes().len(),
                self.well_formed(),
                goal == self.weights(),
                adj.len() == i,
                forall|u: int| 0 <= u < i ==> (#[trigger] adj@[u])@ == goal[u],
                forall|u: int, k: int|
                    0 <= u < i && 0 <= k < adj@[u]@.len() ==> (#[trigger] adj@[u]@[k]).0 < count,
            decreases count - i,
        {
            let near = self.neighbours(i);
            let mut row: Row = Vec::new();
            let mut k: usize = 0;
            while k < near.len()
                invariant
                    0 <= k <= near.len(),
                    count == self.nodes().len(),
                    forall|j: int| 0 <= j < near.len() ==> (#[trigger] near@[j]).0 < count,
                    row.len() == k,
                    forall|j: int|
                        0 <= j < k ==> (#[trigger] row@[j]) == (
                            near@[j].0,
                            relation_weight(near@[j].1.relation),
                        ),
                decreases near.len() - k,
            {
                let (other, edge, _) = near[k];
                row.push((other, edge.relation.weight_hundredths()));
                k += 1;
            }
            assert(row@ == weighted(near@));
            assert(row@ == goal[i as int]);
            assert forall|j: int| 0 <= j < row.len() implies (#[trigger] row@[j]).0 < count by {
                assert(near@[j].0 < count);
            }
            adj.push(row);
            i += 1;
        }
        assert(rows(adj@) == goal);
        find_communities(adj)
    }
}

// ---------------------------------------------------------------------------
// Laws
// ---------------------------------------------------------------------------

/// Whether a colouring is the same along every edge. The finest such colouring is
/// the one by connected components.
pub open spec fn even_along_edges(adj: Seq<Seq<(usize, u64)>>, colour: Seq<int>) -> bool {
    colour.len() == adj.len() && forall|u: int, k: int|
        0 <= u < adj.len() && 0 <= k < adj[u].len() ==> colour[(#[trigger] adj[u][k]).0 as int]
            == colour[u]
}

/// Whether nodes with the same label have the same colour.
pub open spec fn within_colours(labels: Seq<usize>, colour: Seq<int>) -> bool {
    labels.len() == colour.len() && forall|u: int, v: int|
        0 <= u < labels.len() && 0 <= v < labels.len() && #[trigger] labels[u]
            == #[trigger] labels[v] ==> colour[u] == colour[v]
}

proof fn lemma_best_exists(
    adj: Seq<Seq<(usize, u64)>>,
    labels: Seq<usize>,
    node: int,
    k: int,
) -> (c: usize)
    requires
        0 <= node < adj.len(),
        0 <= k <= adj[node].len(),
    ensures
        is_best(adj, labels, node, c, k),
    decreases k,
{
    if k == 0 {
        labels[node]
    } else {
        let before = lemma_best_exists(adj, labels, node, k - 1);
        let e = adj[node][k - 1];
        let candidate = labels[e.0 as int];
        let c = if e.0 != node && candidate != before && better(
            adj,
            labels,
            node,
            candidate,
            before,
        ) {
            candidate
        } else {
            before
        };
        assert(may_join(adj, labels, node, before, k)) by {
            if before != labels[node] {
                let j = choose|j: int|
                    0 <= j < k - 1 && (#[trigger] adj[node][j]).0 != node && labels[
                    adj[node][j].0 as int] == before;
                assert(adj[node][j].0 != node);
            }
        }
        if c == candidate {
            assert(adj[node][k - 1].0 == e.0);
        }
        assert(may_join(adj, labels, node, c, k));
        assert forall|d: usize| #[trigger] may_join(adj, labels, node, d, k) && d != c implies better(
            adj,
            labels,
            node,
            c,
            d,
        ) by {
            if may_join(adj, labels, node, d, k - 1) {
                if d != before {
                    assert(better(adj, labels, node, before, d));
                }
            } else {
                let j = choose|j: int|
                    0 <= j < k && (#[trigger] adj[node][j]).0 != node && labels[
                    adj[node][j].0 as int] == d;
                if j < k - 1 {
                    assert(may_join(adj, labels, node, d, k - 1));
                }
            }
        }
        c
    }
}

proof fn lemma_sweep_within(
    adj: Seq<Seq<(usize, u64)>>,
    labels: Seq<usize>,
    colour: Seq<int>,
    k: int,
)
    requires
        inside(adj),
        even_along_edges(adj, colour),
        within_colours(labels, colour),
        0 <= k <= adj.len(),
    ensures
        within_colours(sweep(adj, labels, k), colour),
    decreases k,
{
    if k > 0 {
        lemma_sweep_within(adj, labels, colour, k - 1);
        let before = sweep(adj, labels, k - 1);
        let node = k - 1;
        let n = adj[node].len() as int;
        let witness = lemma_best_exists(adj, before, node, n);
        let target = best(adj, before, node);
        assert(is_best(adj, before, node, target, n));
        let after = before.update(node, target);
        // Whoever has the target label has the colour of the node.
        assert forall|v: int| 0 <= v < before.len() && #[trigger] before[v] == target implies colour[
        v] == colour[node] by {
            if target != before[node] {
                let j = choose|j: int|
                    0 <= j < n && (#[trigger] adj[node][j]).0 != node && before[
                    adj[node][j].0 as int] == target;
                let other = adj[node][j].0 as int;
                assert(colour[other] == colour[node]);
                assert(before[other] == before[v]);
            } else {
                assert(before[node] == before[v]);
            }
        }
        assert forall|u: int, v: int|
            0 <= u < after.len() && 0 <= v < after.len() && #[trigger] after[u]
                == #[trigger] after[v] implies colour[u] == colour[v] by {
            if u == node && v != node {
                assert(before[v] == target);
            } else if v == node && u != node {
                assert(before[u] == target);
            } else if u != node {
                assert(before[u] == before[v]);
            }
        }
    }
}

proof fn lemma_settled_within(
    adj: Seq<Seq<(usize, u64)>>,
    labels: Seq<usize>,
    colour: Seq<int>,
    fuel: nat,
)
    requires
        inside(adj),
        even_along_edges(adj, colour),
        within_colours(labels, colour),
    ensures
        within_colours(settled(adj, labels, fuel), colour),
    decreases fuel,
{
    if fuel > 0 {
        lemma_sweep_within(adj, labels, colour, adj.len() as int);
        let next = sweep(adj, labels, adj.len() as int);
        if next != labels {
            lemma_settled_within(adj, next, colour, (fuel - 1) as nat);
        }
    }
}

proof fn lemma_level_within(adj: Seq<Seq<(usize, u64)>>, colour: Seq<int>)
    requires
        adj.len() <= usize::MAX,
        inside(adj),
        even_along_edges(adj, colour),
    ensures
        within_colours(level_labels(adj), colour),
{
    let own = apart(adj.len());
    assert forall|u: int, v: int|
        0 <= u < own.len() && 0 <= v < own.len() && #[trigger] own[u] == #[trigger] own[v] implies colour[
    u] == colour[v] by {
        assert(own[u] == u as usize);
        assert(own[v] == v as usize);
    }
    lemma_settled_within(adj, own, colour, MAX_SWEEPS as nat);
}

/// The colour of some node with the label.
spec fn colour_of(labels: Seq<usize>, colour: Seq<int>, c: int) -> int {
    colour[choose|u: int| 0 <= u < labels.len() && #[trigger] labels[u] == c]
}

proof fn lemma_merged_even(
    adj: Seq<Seq<(usize, u64)>>,
    labels: Seq<usize>,
    colour: Seq<int>,
    c: int,
    k: int,
    j: int,
)
    requires
        inside(adj),
        even_along_edges(adj, colour),
        within_colours(labels, colour),
        0 <= k <= adj.len(),
        0 <= j < merged_row(adj, labels, c, k).len(),
    ensures
        exists|v: int|
            0 <= v < labels.len() && #[trigger] labels[v] == merged_row(adj, labels, c, k)[j].0
                && colour[v] == colour_of(labels, colour, c),
    decreases k,
{
    if k > 0 {
        let before = merged_row(adj, labels, c, k - 1);
        let row = merged_row(adj, labels, c, k);
        if j < before.len() {
            lemma_merged_even(adj, labels, colour, c, k - 1, j);
            assert(row[j] == before[j]);
        } else {
            let i = j - before.len();
            let e = adj[k - 1][i];
            assert(labels[k - 1] == c);
            assert(row[j] == (labels[e.0 as int], e.1));
            let v = e.0 as int;
            assert(colour[v] == colour[k - 1]);
            let u = choose|u: int| 0 <= u < labels.len() && #[trigger] labels[u] == c;
            assert(labels[u] == labels[k - 1]);
            assert(labels[v] == row[j].0);
        }
    }
}

proof fn lemma_levels_within(
    adj: Seq<Seq<(usize, u64)>>,
    assignment: Seq<usize>,
    colour: Seq<int>,
    start: Seq<int>,
)
    requires
        adj.len() <= usize::MAX,
        inside(adj),
        even_along_edges(adj, colour),
        labelled(assignment, adj.len() as int),
        assignment.len() == start.len(),
        forall|i: int|
            0 <= i < start.len() ==> start[i] == colour[(#[trigger] assignment[i]) as int],
    ensures
        within_colours(levels(adj, assignment), start),
    decreases adj.len(),
{
    let raw = level_labels(adj);
    let count = seen_labels(raw).len();
    lemma_level_within(adj, colour);
    lemma_seen(raw);
    if count < adj.len() {
        let labels = compacted(raw);
        renumbering_keeps_the_partition(raw);
        assert(within_colours(labels, colour)) by {
            assert forall|u: int, v: int|
                0 <= u < labels.len() && 0 <= v < labels.len() && #[trigger] labels[u]
                    == #[trigger] labels[v] implies colour[u] == colour[v] by {
                assert(raw[u] == raw[v]);
            }
        }
        let next = contracted(adj, labels, count);
        let colour2 = Seq::new(count, |c: int| colour_of(labels, colour, c));
        assert forall|u: int| 0 <= u < labels.len() implies colour2[(#[trigger] labels[u]) as int]
            == colour[u] by {
            let c = labels[u] as int;
            let w = choose|w: int| 0 <= w < labels.len() && #[trigger] labels[w] == c;
            assert(labels[w] == labels[u]);
        }
        assert(even_along_edges(next, colour2)) by {
            assert forall|c: int, k: int| 0 <= c < next.len() && 0 <= k < next[c].len() implies colour2[
            (#[trigger] next[c][k]).0 as int] == colour2[c] by {
                lemma_merged_even(adj, labels, colour, c, adj.len() as int, k);
                let v = choose|v: int|
                    0 <= v < labels.len() && #[trigger] labels[v] == next[c][k].0 && colour[v]
                        == colour_of(labels, colour, c);
                assert(colour2[labels[v] as int] == colour[v]);
            }
        }
        lemma_contracted_inside(adj, labels, count);
        let assignment2 = reassigned(assignment, labels);
        assert forall|i: int| 0 <= i < start.len() implies start[i] == colour2[(
        #[trigger] assignment2[i]) as int] by {
            let a = assignment[i] as int;
            assert(colour2[labels[a] as int] == colour[a]);
        }
        assert(labelled(assignment2, count as int)) by {
            assert forall|u: int| 0 <= u < assignment2.len() implies (#[trigger] assignment2[u])
                < count by {
                assert(assignment[u] < adj.len());
                assert(labels[assignment[u] as int] < count);
            }
        }
        lemma_levels_within(next, assignment2, colour2, start);
    }
}

/// A community never joins sections that no path joins: whatever is the same along
/// every edge is the same throughout a community. A section without edges has a
/// community of its own.
pub proof fn communities_stay_within_components(
    adj: Seq<Seq<(usize, u64)>>,
    colour: Seq<int>,
    i: int,
    j: int,
)
    requires
        adj.len() <= usize::MAX,
        inside(adj),
        even_along_edges(adj, colour),
        0 <= i < adj.len(),
        0 <= j < adj.len(),
        communities_of(adj)[i] == communities_of(adj)[j],
    ensures
        colour[i] == colour[j],
{
    let own = apart(adj.len());
    assert forall|k: int| 0 <= k < colour.len() implies colour[k] == colour[(
    #[trigger] own[k]) as int] by {
        assert(own[k] == k as usize);
    }
    lemma_levels_within(adj, own, colour, colour);
    let labels = levels(adj, own);
    renumbering_keeps_the_partition(labels);
    assert(labels[i] == labels[j]);
}

proof fn lemma_seen_prefix(labels: Seq<usize>, n: int)
    requires
        0 <= n <= labels.len(),
    ensures
        seen_labels(labels.take(n)).len() <= seen_labels(labels).len(),
        seen_labels(labels).take(seen_labels(labels.take(n)).len() as int) == seen_labels(
            labels.take(n),
        ),
    decreases labels.len(),
{
    if n < labels.len() {
        let rest = labels.drop_last();
        lemma_seen_prefix(rest, n);
        assert(rest.take(n) == labels.take(n));
        let first = seen_labels(labels.take(n));
        assert(seen_labels(labels).take(first.len() as int) == seen_labels(rest).take(
            first.len() as int,
        ));
    } else {
        assert(labels.take(n) == labels);
        assert(seen_labels(labels).take(seen_labels(labels).len() as int) == seen_labels(labels));
    }
}

proof fn lemma_numbered_in_order(labels: Seq<usize>, i: int) -> (j: int)
    requires
        labels.len() <= usize::MAX,
        0 <= i < labels.len(),
    ensures
        compacted(labels)[i] > 0 ==> 0 <= j < i && compacted(labels)[j] == compacted(labels)[i] - 1,
{
    let seen = seen_labels(labels);
    let out = compacted(labels);
    lemma_seen(labels);
    assert(labels.contains(labels[i]));
    assert(seen.contains(labels[i]));
    lemma_place(seen, labels[i]);
    let k = out[i] as int;
    if k > 0 {
        let upto = labels.take(i + 1);
        let first = seen_labels(upto);
        let before = seen_labels(labels.take(i));
        lemma_seen_prefix(labels, i + 1);
        lemma_seen_prefix(labels, i);
        lemma_seen(upto);
        lemma_seen(labels.take(i));
        assert(upto[i] == labels[i]);
        assert(upto.contains(labels[i]));
        assert(first.contains(labels[i]));
        let at = choose|at: int| 0 <= at < first.len() && first[at] == labels[i];
        assert(seen[at] == seen.take(first.len() as int)[at]);
        assert(at == k);
        assert(upto.drop_last() == labels.take(i));
        assert(k - 1 < before.len());
        let label = before[k - 1];
        assert(seen[k - 1] == seen.take(before.len() as int)[k - 1]);
        assert(before.contains(label));
        assert(labels.take(i).contains(label));
        let j = choose|j: int| 0 <= j < i && labels.take(i)[j] == label;
        assert(labels[j] == label);
        assert(labels.contains(label));
        assert(seen.contains(label));
        lemma_place(seen, label);
        j
    } else {
        0
    }
}

proof fn lemma_levels_len(adj: Seq<Seq<(usize, u64)>>, assignment: Seq<usize>)
    ensures
        levels(adj, assignment).len() == assignment.len(),
    decreases adj.len(),
{
    let raw = level_labels(adj);
    let count = seen_labels(raw).len();
    if count < adj.len() {
        lemma_levels_len(
            contracted(adj, compacted(raw), count),
            reassigned(assignment, compacted(raw)),
        );
    }
}

/// Every node has a community, and the numbers of the communities come in the order in
/// which they first appear: the first is zero, and each number stands behind the one
/// below it.
pub proof fn communities_are_numbered_as_they_appear(adj: Seq<Seq<(usize, u64)>>)
    requires
        adj.len() <= usize::MAX,
    ensures
        communities_of(adj).len() == adj.len(),
        adj.len() > 0 ==> communities_of(adj)[0] == 0,
        forall|i: int|
            0 <= i < adj.len() && (#[trigger] communities_of(adj)[i]) > 0 ==> exists|j: int|
                0 <= j < i && #[trigger] communities_of(adj)[j] == communities_of(adj)[i] - 1,
{
    let labels = levels(adj, apart(adj.len()));
    lemma_levels_len(adj, apart(adj.len()));
    assert forall|i: int|
        0 <= i < adj.len() && (#[trigger] communities_of(adj)[i]) > 0 implies exists|j: int|
        0 <= j < i && #[trigger] communities_of(adj)[j] == communities_of(adj)[i] - 1 by {
        let j = lemma_numbered_in_order(labels, i);
        assert(communities_of(adj)[j] == communities_of(adj)[i] - 1);
    }
    if adj.len() > 0 {
        let j = lemma_numbered_in_order(labels, 0);
    }
}

impl Graph {
    /// Whether some path joins the two sections, its edges followed either way.
    pub open spec fn connected(self, from: NodeIndex, to: NodeIndex) -> bool {
        exists|n: nat| #[trigger] self.within(seq![from], to, n)
    }
}

proof fn lemma_joins_back(graph: Graph, u: NodeIndex, v: NodeIndex)
    requires
        graph.well_formed(),
        u < graph.nodes().len(),
        graph.joins(u, v),
    ensures
        v < graph.nodes().len(),
        graph.joins(v, u),
{
    lemma_edges_join(graph, u as int);
    let k = choose|k: int| 0 <= k < graph.near(u).len() && (#[trigger] graph.near(u)[k]).0 == v;
    let e = graph.near(u)[k].1;
    let out = graph.edges_from(u as int).len();
    if k < out {
        assert(graph.edges_from(u as int)[k] == e);
        adjacency_holds_both_ways(graph, e);
        let at = choose|at: int|
            0 <= at < graph.edges_to(v as int).len() && graph.edges_to(v as int)[at] == e;
        let first = graph.edges_from(v as int).len();
        assert(graph.near(v)[first + at].0 == u);
    } else {
        assert(graph.edges_to(u as int)[k - out] == e);
        adjacency_holds_both_ways(graph, e);
        let at = choose|at: int|
            0 <= at < graph.edges_from(v as int).len() && graph.edges_from(v as int)[at] == e;
        assert(graph.near(v)[at].0 == u);
    }
}

proof fn lemma_connected_on(graph: Graph, from: NodeIndex, u: NodeIndex, v: NodeIndex)
    requires
        graph.connected(from, u),
        graph.joins(u, v),
    ensures
        graph.connected(from, v),
{
    let n = choose|n: nat| #[trigger] graph.within(seq![from], u, n);
    assert(((n + 1) - 1) as nat == n);
    assert(graph.within(seq![from], v, n + 1));
}

/// Two sections that no path joins are in different communities.
pub proof fn communities_are_connected(graph: Graph, i: NodeIndex, j: NodeIndex)
    requires
        graph.well_formed(),
        i < graph.nodes().len(),
        j < graph.nodes().len(),
        !graph.connected(i, j),
    ensures
        communities_of(graph.weights())[i as int] != communities_of(graph.weights())[j as int],
{
    let adj = graph.weights();
    lemma_edges_join(graph, i as int);
    let colour = Seq::new(
        adj.len(),
        |u: int|
            if graph.connected(i, u as usize) {
                1int
            } else {
                0int
            },
    );
    assert forall|u: int, k: int| 0 <= u < adj.len() && 0 <= k < adj[u].len() implies (
    #[trigger] adj[u][k]).0 < adj.len() && colour[adj[u][k].0 as int] == colour[u] by {
        let here = u as usize;
        let there = adj[u][k].0;
        assert(graph.near(here)[k].0 == there);
        assert(graph.joins(here, there));
        lemma_joins_back(graph, here, there);
        if graph.connected(i, here) {
            lemma_connected_on(graph, i, here, there);
        }
        if graph.connected(i, there) {
            lemma_connected_on(graph, i, there, here);
        }
    }
    assert(graph.connected(i, i)) by {
        assert(seq![i][0] == i);
        assert(graph.within(seq![i], i, 0));
    }
    if communities_of(adj)[i as int] == communities_of(adj)[j as int] {
        communities_stay_within_components(adj, colour, i as int, j as int);
    }
}

// ---------------------------------------------------------------------------
// Laws of the weights
// ---------------------------------------------------------------------------

/// The weight of a row that leads to one node.
pub open spec fn weight_to(row: Seq<(usize, u64)>, node: int) -> nat
    decreases row.len(),
{
    if row.len() == 0 {
        0
    } else {
        weight_to(row.drop_last(), node) + (if row.last().0 == node {
            row.last().1 as nat
        } else {
            0
        })
    }
}

/// The hundredths that the edges from one section to another weigh together, each relation by
/// its own weight.
pub open spec fn weighs(edges: Seq<Edge>, source: NodeIndex, target: NodeIndex) -> nat {
    let n = |relation: RelationType| times(edges, Edge { source, target, relation });
    100 * n(RelationType::Contradicts) + 90 * n(RelationType::Supersedes) + 75 * n(
        RelationType::ExampleOf,
    ) + 70 * n(RelationType::Ingoing) + 65 * n(RelationType::Outgoing) + 60 * n(
        RelationType::Related,
    ) + 50 * n(RelationType::Other) + 30 * n(RelationType::Parent)
}

proof fn lemma_weighs_push(edges: Seq<Edge>, e: Edge, source: NodeIndex, target: NodeIndex)
    ensures
        weighs(edges.push(e), source, target) == weighs(edges, source, target) + (if e.source
            == source && e.target == target {
            relation_weight(e.relation) as nat
        } else {
            0
        }),
{
    assert(edges.push(e).drop_last() == edges);
    assert(edges.push(e).last() == e);
    match e.relation {
        RelationType::Related => {},
        RelationType::Outgoing => {},
        RelationType::Ingoing => {},
        RelationType::Contradicts => {},
        RelationType::ExampleOf => {},
        RelationType::Supersedes => {},
        RelationType::Parent => {},
        RelationType::Other => {},
    }
}

proof fn lemma_weight_to(out: Seq<Edge>, back: Seq<Edge>, i: NodeIndex, j: NodeIndex)
    requires
        forall|k: int| 0 <= k < out.len() ==> (#[trigger] out[k]).source == i,
        forall|k: int| 0 <= k < back.len() ==> (#[trigger] back[k]).target == i,
    ensures
        weight_to(weighted(both_ways(out, back)), j as int) == weighs(out, i, j) + weighs(
            back,
            j,
            i,
        ),
    decreases out.len() + back.len(),
{
    let row = weighted(both_ways(out, back));
    if back.len() > 0 {
        let rest = back.drop_last();
        assert forall|k: int| 0 <= k < rest.len() implies (#[trigger] rest[k]).target == i by {
            assert(rest[k] == back[k]);
        }
        lemma_weight_to(out, rest, i, j);
        lemma_weighs_push(rest, back.last(), j, i);
        assert(rest.push(back.last()) == back);
        assert(row.drop_last() == weighted(both_ways(out, rest)));
        assert(back[back.len() - 1].target == i);
    } else if out.len() > 0 {
        let rest = out.drop_last();
        assert forall|k: int| 0 <= k < rest.len() implies (#[trigger] rest[k]).source == i by {
            assert(rest[k] == out[k]);
        }
        lemma_weight_to(rest, back, i, j);
        lemma_weighs_push(rest, out.last(), i, j);
        assert(rest.push(out.last()) == out);
        assert(row.drop_last() == weighted(both_ways(rest, back)));
        assert(out[out.len() - 1].source == i);
    }
}

proof fn lemma_weighs_both_ways(graph: Graph, i: NodeIndex, j: NodeIndex)
    requires
        graph.well_formed(),
        i < graph.nodes().len(),
        j < graph.nodes().len(),
    ensures
        weighs(graph.edges_from(i as int), i, j) == weighs(graph.edges_to(j as int), i, j),
{
    let edge = |relation: RelationType| Edge { source: i, target: j, relation };
    adjacency_holds_both_ways(graph, edge(RelationType::Related));
    adjacency_holds_both_ways(graph, edge(RelationType::Outgoing));
    adjacency_holds_both_ways(graph, edge(RelationType::Ingoing));
    adjacency_holds_both_ways(graph, edge(RelationType::Contradicts));
    adjacency_holds_both_ways(graph, edge(RelationType::ExampleOf));
    adjacency_holds_both_ways(graph, edge(RelationType::Supersedes));
    adjacency_holds_both_ways(graph, edge(RelationType::Parent));
    adjacency_holds_both_ways(graph, edge(RelationType::Other));
}

/// The weight between two sections is that of all edges that join them, whichever way they
/// point and of whatever relation, and it is the same from either side. It is positive exactly
/// where an edge joins them.
pub proof fn every_edge_weighs_between_its_ends(graph: Graph, i: NodeIndex, j: NodeIndex)
    requires
        graph.well_formed(),
        i < graph.nodes().len(),
        j < graph.nodes().len(),
    ensures
        weight_to(graph.weights()[i as int], j as int) == weighs(
            graph.edges_from(i as int),
            i,
            j,
        ) + weighs(graph.edges_from(j as int), j, i),
        weight_to(graph.weights()[i as int], j as int) == weight_to(
            graph.weights()[j as int],
            i as int,
        ),
        weight_to(graph.weights()[i as int], j as int) > 0 <==> graph.joins(i, j),
{
    lemma_edges_join(graph, i as int);
    lemma_edges_join(graph, j as int);
    lemma_weight_to(graph.edges_from(i as int), graph.edges_to(i as int), i, j);
    lemma_weight_to(graph.edges_from(j as int), graph.edges_to(j as int), j, i);
    lemma_weighs_both_ways(graph, i, j);
    lemma_weighs_both_ways(graph, j, i);
    lemma_positive(graph.near(i), j);
}

proof fn lemma_positive(list: Seq<(NodeIndex, Edge, bool)>, j: NodeIndex)
    ensures
        weight_to(weighted(list), j as int) > 0 <==> exists|k: int|
            0 <= k < list.len() && (#[trigger] list[k]).0 == j,
    decreases list.len(),
{
    if list.len() > 0 {
        let rest = list.drop_last();
        lemma_positive(rest, j);
        assert(weighted(list).drop_last() == weighted(rest));
        if exists|k: int| 0 <= k < rest.len() && (#[trigger] rest[k]).0 == j {
            let k = choose|k: int| 0 <= k < rest.len() && (#[trigger] rest[k]).0 == j;
            assert(list[k].0 == j);
        }
        if list.last().0 == j {
            assert(list[list.len() - 1].0 == j);
            assert(relation_weight(list.last().1.relation) > 0);
        }
        if exists|k: int| 0 <= k < list.len() && (#[trigger] list[k]).0 == j {
            let k = choose|k: int| 0 <= k < list.len() && (#[trigger] list[k]).0 == j;
            if k < rest.len() {
                assert(rest[k].0 == j);
            }
        }
    }
}

// ---------------------------------------------------------------------------
// Laws of the levels
// ---------------------------------------------------------------------------

/// Whether two nodes are joined to each other and to nothing else.
pub open spec fn paired(adj: Seq<Seq<(usize, u64)>>, i: int, j: int) -> bool {
    &&& 0 <= i < adj.len() && 0 <= j < adj.len() && i != j
    &&& forall|k: int| 0 <= k < adj[i].len() ==> (#[trigger] adj[i][k]).0 == j
    &&& forall|k: int| 0 <= k < adj[j].len() ==> (#[trigger] adj[j][k]).0 == i
    &&& forall|u: int, k: int|
        0 <= u < adj.len() && u != i && u != j && 0 <= k < adj[u].len() ==> (
        #[trigger] adj[u][k]).0 != i && adj[u][k].0 != j
    &&& row_sum(adj[i]) > 0 && row_sum(adj[j]) > 0
}

/// Whether no node but the two has the label of either.
spec fn keep_apart(labels: Seq<usize>, i: int, j: int) -> bool {
    forall|u: int|
        0 <= u < labels.len() && u != i && u != j ==> (#[trigger] labels[u]) != labels[i]
            && labels[u] != labels[j]
}

proof fn lemma_best_is(adj: Seq<Seq<(usize, u64)>>, labels: Seq<usize>, node: int)
    requires
        inside(adj),
        labels.len() == adj.len(),
        0 <= node < adj.len(),
    ensures
        is_best(adj, labels, node, best(adj, labels, node), adj[node].len() as int),
{
    let c = lemma_best_exists(adj, labels, node, adj[node].len() as int);
}

proof fn lemma_step_elsewhere(
    adj: Seq<Seq<(usize, u64)>>,
    labels: Seq<usize>,
    i: int,
    j: int,
    node: int,
)
    requires
        inside(adj),
        paired(adj, i, j),
        labels.len() == adj.len(),
        keep_apart(labels, i, j),
        0 <= node < adj.len(),
        node != i,
        node != j,
    ensures
        keep_apart(labels.update(node, best(adj, labels, node)), i, j),
{
    let c = best(adj, labels, node);
    lemma_best_is(adj, labels, node);
    let n = adj[node].len() as int;
    assert(may_join(adj, labels, node, c, n));
    if c != labels[node] {
        let k = choose|k: int|
            0 <= k < n && (#[trigger] adj[node][k]).0 != node && labels[adj[node][k].0 as int] == c;
        let other = adj[node][k].0 as int;
        assert(other != i && other != j);
        assert(labels[other] != labels[i] && labels[other] != labels[j]);
    } else {
        assert(labels[node] != labels[i]);
    }
}

proof fn lemma_weight_all(row: Seq<(usize, u64)>, node: int, labels: Seq<usize>, other: int)
    requires
        other != node,
        0 <= other,
        forall|k: int| 0 <= k < row.len() ==> (#[trigger] row[k]).0 == other,
    ensures
        forall|c: usize|
            #[trigger] weight_into(row, node, labels, c) == if labels[other] == c {
                row_sum(row)
            } else {
                0
            },
    decreases row.len(),
{
    if row.len() > 0 {
        let rest = row.drop_last();
        assert forall|k: int| 0 <= k < rest.len() implies (#[trigger] rest[k]).0 == other by {
            assert(rest[k] == row[k]);
        }
        lemma_weight_all(rest, node, labels, other);
        assert(row[row.len() - 1].0 == other);
        assert forall|c: usize|
            #[trigger] weight_into(row, node, labels, c) == if labels[other] == c {
                row_sum(row)
            } else {
                0
            } by {
            assert(weight_into(rest, node, labels, c) == if labels[other] == c {
                row_sum(rest)
            } else {
                0
            });
        }
    }
}

/// The degree of a label that one node alone has besides `skip`.
proof fn lemma_class_of_one(
    adj: Seq<Seq<(usize, u64)>>,
    labels: Seq<usize>,
    c: usize,
    skip: int,
    only: int,
    k: int,
)
    requires
        0 <= k <= adj.len(),
        labels.len() == adj.len(),
        forall|u: int|
            0 <= u < labels.len() && u != skip && u != only ==> (#[trigger] labels[u]) != c,
    ensures
        class_degree(adj, labels, c, skip, k) == if 0 <= only < k && only != skip && labels[only]
            == c {
            row_sum(adj[only])
        } else {
            0
        },
    decreases k,
{
    if k > 0 {
        lemma_class_of_one(adj, labels, c, skip, only, k - 1);
        if k - 1 != skip && k - 1 != only {
            assert(labels[k - 1] != c);
        }
    }
}

proof fn lemma_two_rows(adj: Seq<Seq<(usize, u64)>>, i: int, j: int)
    requires
        0 <= i < adj.len(),
        0 <= j < adj.len(),
        i != j,
    ensures
        row_sum(adj[i]) + row_sum(adj[j]) <= total(adj),
    decreases adj.len(),
{
    let rest = adj.drop_last();
    if i == adj.len() - 1 {
        lemma_row_in_total(rest, j);
    } else if j == adj.len() - 1 {
        lemma_row_in_total(rest, i);
    } else {
        lemma_two_rows(rest, i, j);
    }
}

/// A node of a pair goes where the other is, or stays with it.
proof fn lemma_step_of_pair(
    adj: Seq<Seq<(usize, u64)>>,
    labels: Seq<usize>,
    i: int,
    j: int,
)
    requires
        inside(adj),
        paired(adj, i, j),
        labels.len() == adj.len(),
        keep_apart(labels, i, j),
    ensures
        best(adj, labels, i) == labels[j],
        keep_apart(labels.update(i, labels[j]), i, j),
{
    let c = best(adj, labels, i);
    let n = adj[i].len() as int;
    lemma_best_is(adj, labels, i);
    assert(may_join(adj, labels, i, c, n));
    if c != labels[i] {
        let k = choose|k: int|
            0 <= k < n && (#[trigger] adj[i][k]).0 != i && labels[adj[i][k].0 as int] == c;
        assert(adj[i][k].0 == j);
    } else if labels[i] != labels[j] {
        // Staying gains nothing, and going gains the weight of the edges between them.
        if n == 0 {
            assert(row_sum(adj[i]) == 0);
        }
        assert(adj[i][0].0 == j);
        assert(may_join(adj, labels, i, labels[j], n));
        assert(better(adj, labels, i, c, labels[j]));
        lemma_weight_all(adj[i], i, labels, j);
        assert forall|u: int| 0 <= u < labels.len() && u != i && u != j implies (
        #[trigger] labels[u]) != labels[i] && labels[u] != labels[j] by {}
        lemma_class_of_one(adj, labels, labels[i], i, j, adj.len() as int);
        lemma_class_of_one(adj, labels, labels[j], i, j, adj.len() as int);
        lemma_two_rows(adj, i, j);
        let w = row_sum(adj[i]) as int;
        let v = row_sum(adj[j]) as int;
        let t = total(adj) as int;
        assert(gain(adj, labels, i, labels[i]) == 0 * t - 0 * w);
        assert(gain(adj, labels, i, labels[j]) == w * t - v * w);
        assert(w * t - v * w > 0) by (nonlinear_arith)
            requires
                w > 0,
                t >= w + v,
        ;
        assert(0 * t - 0 * w == 0);
    }
    assert forall|u: int| 0 <= u < labels.len() && u != i && u != j implies (
    #[trigger] labels.update(i, labels[j])[u]) != labels[j] by {
        assert(labels[u] != labels[j]);
    }
}

proof fn lemma_pair_swaps(adj: Seq<Seq<(usize, u64)>>, i: int, j: int)
    requires
        paired(adj, i, j),
    ensures
        paired(adj, j, i),
{
    assert forall|u: int, k: int|
        0 <= u < adj.len() && u != j && u != i && 0 <= k < adj[u].len() implies (
    #[trigger] adj[u][k]).0 != j && adj[u][k].0 != i by {
        assert(adj[u][k].0 != i);
    }
}

proof fn lemma_pair_sweep(adj: Seq<Seq<(usize, u64)>>, labels: Seq<usize>, i: int, j: int, k: int)
    requires
        inside(adj),
        paired(adj, i, j),
        labels.len() == adj.len(),
        keep_apart(labels, i, j),
        0 <= k <= adj.len(),
    ensures
        sweep(adj, labels, k).len() == adj.len(),
        keep_apart(sweep(adj, labels, k), i, j),
        labels[i] == labels[j] || k > i || k > j ==> sweep(adj, labels, k)[i] == sweep(
            adj,
            labels,
            k,
        )[j],
    decreases k,
{
    if k > 0 {
        lemma_pair_sweep(adj, labels, i, j, k - 1);
        let before = sweep(adj, labels, k - 1);
        let node = k - 1;
        if node == i {
            lemma_step_of_pair(adj, before, i, j);
        } else if node == j {
            lemma_pair_swaps(adj, i, j);
            assert(keep_apart(before, j, i));
            lemma_step_of_pair(adj, before, j, i);
            assert(keep_apart(before.update(j, before[i]), i, j));
        } else {
            lemma_step_elsewhere(adj, before, i, j, node);
        }
    }
}

proof fn lemma_pair_settled(
    adj: Seq<Seq<(usize, u64)>>,
    labels: Seq<usize>,
    i: int,
    j: int,
    fuel: nat,
)
    requires
        inside(adj),
        paired(adj, i, j),
        labels.len() == adj.len(),
        keep_apart(labels, i, j),
        labels[i] == labels[j] || fuel > 0,
    ensures
        settled(adj, labels, fuel).len() == adj.len(),
        settled(adj, labels, fuel)[i] == settled(adj, labels, fuel)[j],
    decreases fuel,
{
    if fuel > 0 {
        let n = adj.len() as int;
        lemma_pair_sweep(adj, labels, i, j, n);
        let next = sweep(adj, labels, n);
        if next != labels {
            lemma_pair_settled(adj, next, i, j, (fuel - 1) as nat);
        }
    }
}

proof fn lemma_seen_full(labels: Seq<usize>, i: int, j: int)
    requires
        0 <= i < j < labels.len(),
        labels[i] == labels[j],
    ensures
        seen_labels(labels).len() < labels.len(),
    decreases labels.len(),
{
    let rest = labels.drop_last();
    lemma_seen(rest);
    if j < rest.len() {
        lemma_seen_full(rest, i, j);
    } else {
        assert(rest[i] == labels[j]);
        assert(rest.contains(labels.last()));
        assert(seen_labels(rest).contains(labels.last()));
    }
}

proof fn lemma_levels_keep(
    adj: Seq<Seq<(usize, u64)>>,
    assignment: Seq<usize>,
    i: int,
    j: int,
)
    requires
        0 <= i < assignment.len(),
        0 <= j < assignment.len(),
        assignment[i] == assignment[j],
    ensures
        levels(adj, assignment)[i] == levels(adj, assignment)[j],
    decreases adj.len(),
{
    let raw = level_labels(adj);
    let count = seen_labels(raw).len();
    if count < adj.len() {
        lemma_levels_keep(
            contracted(adj, compacted(raw), count),
            reassigned(assignment, compacted(raw)),
            i,
            j,
        );
    }
}

/// Two nodes that are joined to each other and to nothing else are one community, however
/// little the edges between them weigh.
pub proof fn a_pair_is_one_community(adj: Seq<Seq<(usize, u64)>>, i: int, j: int)
    requires
        adj.len() <= usize::MAX,
        inside(adj),
        paired(adj, i, j),
    ensures
        communities_of(adj)[i] == communities_of(adj)[j],
{
    let own = apart(adj.len());
    assert(keep_apart(own, i, j)) by {
        assert forall|u: int| 0 <= u < own.len() && u != i && u != j implies (#[trigger] own[u])
            != own[i] && own[u] != own[j] by {
            assert(own[u] == u as usize && own[i] == i as usize && own[j] == j as usize);
        }
    }
    lemma_row_in_total(adj, i);
    lemma_pair_settled(adj, own, i, j, MAX_SWEEPS as nat);
    let raw = level_labels(adj);
    assert(raw == settled(adj, own, MAX_SWEEPS as nat));
    if i < j {
        lemma_seen_full(raw, i, j);
    } else {
        lemma_seen_full(raw, j, i);
    }
    let first = compacted(raw);
    renumbering_keeps_the_partition(raw);
    assert(first[i] == first[j]);
    let next = reassigned(own, first);
    assert(own[i] == i as usize && own[j] == j as usize);
    assert(next[i] == next[j]);
    let smaller = contracted(adj, first, seen_labels(raw).len());
    lemma_levels_keep(smaller, next, i, j);
    lemma_levels_len(smaller, next);
    let labels = levels(adj, own);
    assert(labels == levels(smaller, next));
    renumbering_keeps_the_partition(labels);
}

/// Two sections whose only edges join them to each other are one community, whatever the
/// relation of the edges, and whichever way they point.
pub proof fn sections_joined_to_each_other_alone_are_one_community(
    graph: Graph,
    i: NodeIndex,
    j: NodeIndex,
)
    requires
        graph.well_formed(),
        i < graph.nodes().len(),
        j < graph.nodes().len(),
        i != j,
        graph.joins(i, j),
        forall|v: NodeIndex| #[trigger] graph.joins(i, v) ==> v == j,
        forall|v: NodeIndex| #[trigger] graph.joins(j, v) ==> v == i,
    ensures
        communities_of(graph.weights())[i as int] == communities_of(graph.weights())[j as int],
{
    let adj = graph.weights();
    lemma_edges_join(graph, i as int);
    every_edge_weighs_between_its_ends(graph, i, j);
    lemma_weight_in_row(adj[i as int], j as int);
    lemma_weight_in_row(adj[j as int], i as int);
    assert forall|u: int, k: int| 0 <= u < adj.len() && 0 <= k < adj[u].len() implies (
    #[trigger] adj[u][k]).0 < adj.len() && graph.joins(u as usize, adj[u][k].0) by {
        lemma_edges_join(graph, u);
        assert(graph.near(u as usize)[k].0 == adj[u][k].0);
        assert(graph.joins(u as usize, adj[u][k].0));
        lemma_joins_back(graph, u as usize, adj[u][k].0);
    }
    assert(paired(adj, i as int, j as int)) by {
        assert forall|k: int| 0 <= k < adj[i as int].len() implies (
        #[trigger] adj[i as int][k]).0 == j by {
            assert(graph.joins(i, adj[i as int][k].0));
        }
        assert forall|k: int| 0 <= k < adj[j as int].len() implies (
        #[trigger] adj[j as int][k]).0 == i by {
            assert(graph.joins(j, adj[j as int][k].0));
        }
        assert forall|u: int, k: int|
            0 <= u < adj.len() && u != i && u != j && 0 <= k < adj[u].len() implies (
        #[trigger] adj[u][k]).0 != i && adj[u][k].0 != j by {
            let here = u as usize;
            assert(graph.joins(here, adj[u][k].0));
            lemma_joins_back(graph, here, adj[u][k].0);
        }
    }
    a_pair_is_one_community(adj, i as int, j as int);
}

proof fn lemma_weight_in_row(row: Seq<(usize, u64)>, node: int)
    ensures
        weight_to(row, node) <= row_sum(row),
    decreases row.len(),
{
    if row.len() > 0 {
        lemma_weight_in_row(row.drop_last(), node);
    }
}

proof fn lemma_levels_through(
    adj: Seq<Seq<(usize, u64)>>,
    assignment: Seq<usize>,
    i: int,
)
    requires
        adj.len() <= usize::MAX,
        labelled(assignment, adj.len() as int),
        0 <= i < assignment.len(),
    ensures
        levels(adj, assignment)[i] == levels(adj, apart(adj.len()))[assignment[i] as int],
    decreases adj.len(),
{
    let own = apart(adj.len());
    let raw = level_labels(adj);
    let count = seen_labels(raw).len();
    let a = assignment[i] as int;
    assert(assignment[i] < adj.len());
    assert(own[a] == a as usize);
    if count < adj.len() {
        let labels = compacted(raw);
        let smaller = contracted(adj, labels, count);
        lemma_level_len(adj);
        renumbering_keeps_the_partition(raw);
        let one = reassigned(assignment, labels);
        let other = reassigned(own, labels);
        assert(labelled(one, count as int)) by {
            assert forall|u: int| 0 <= u < one.len() implies (#[trigger] one[u]) < count by {
                assert(assignment[u] < adj.len());
                assert(labels[assignment[u] as int] < count);
            }
        }
        assert(labelled(other, count as int)) by {
            assert forall|u: int| 0 <= u < other.len() implies (#[trigger] other[u]) < count by {
                assert(own[u] == u as usize);
                assert(labels[u] < count);
            }
        }
        lemma_levels_through(smaller, one, i);
        lemma_levels_through(smaller, other, a);
    }
}

proof fn lemma_level_len(adj: Seq<Seq<(usize, u64)>>)
    ensures
        level_labels(adj).len() == adj.len(),
{
    lemma_settled_len(adj, apart(adj.len()), MAX_SWEEPS as nat);
}

proof fn lemma_settled_len(adj: Seq<Seq<(usize, u64)>>, labels: Seq<usize>, fuel: nat)
    requires
        labels.len() == adj.len(),
    ensures
        settled(adj, labels, fuel).len() == labels.len(),
    decreases fuel,
{
    if fuel > 0 {
        lemma_sweep_len(adj, labels, adj.len() as int);
        let next = sweep(adj, labels, adj.len() as int);
        if next != labels {
            lemma_settled_len(adj, next, (fuel - 1) as nat);
        }
    }
}

proof fn lemma_sweep_len(adj: Seq<Seq<(usize, u64)>>, labels: Seq<usize>, k: int)
    requires
        k <= labels.len(),
    ensures
        sweep(adj, labels, k).len() == labels.len(),
    decreases k,
{
    if k > 0 {
        lemma_sweep_len(adj, labels, k - 1);
    }
}

/// Communities are found again in what they were contracted to: where a level merges nodes,
/// two nodes are one community exactly when what they were merged into are one community of
/// the contracted graph. Where it merges none, every node is a community.
pub proof fn communities_are_those_of_the_contracted_graph(
    adj: Seq<Seq<(usize, u64)>>,
    i: int,
    j: int,
)
    requires
        adj.len() <= usize::MAX,
        0 <= i < adj.len(),
        0 <= j < adj.len(),
    ensures
        ({
            let first = compacted(level_labels(adj));
            let count = seen_labels(level_labels(adj)).len();
            let smaller = contracted(adj, first, count);
            let all = communities_of(adj);
            let merged = communities_of(smaller);
            &&& count < adj.len() ==> (all[i] == all[j] <==> merged[first[i] as int]
                == merged[first[j] as int])
            &&& count == adj.len() ==> (all[i] == all[j] <==> i == j)
        }),
{
    let own = apart(adj.len());
    let raw = level_labels(adj);
    let first = compacted(raw);
    let count = seen_labels(raw).len();
    let smaller = contracted(adj, first, count);
    let labels = levels(adj, own);
    lemma_level_len(adj);
    renumbering_keeps_the_partition(raw);
    lemma_levels_len(adj, own);
    renumbering_keeps_the_partition(labels);
    assert(own[i] == i as usize && own[j] == j as usize);
    if count < adj.len() {
        let next = reassigned(own, first);
        assert(labelled(next, count as int)) by {
            assert forall|u: int| 0 <= u < next.len() implies (#[trigger] next[u]) < count by {
                assert(own[u] == u as usize);
                assert(first[u] < count);
            }
        }
        lemma_levels_through(smaller, next, i);
        lemma_levels_through(smaller, next, j);
        let inner = levels(smaller, apart(count));
        lemma_levels_len(smaller, apart(count));
        renumbering_keeps_the_partition(inner);
        assert(labels == levels(smaller, next));
        assert(next[i] == first[i] && next[j] == first[j]);
        assert(first[i] < count && first[j] < count);
        assert(apart(count).len() == count);
    } else {
        lemma_seen(raw);
        assert(labels == own);
    }
}

// ---------------------------------------------------------------------------
// Laws of modularity
// ---------------------------------------------------------------------------

/// What two nodes in one community are worth: the weight between them, against what their
/// degrees would give by chance, times the sum of all degrees.
pub open spec fn worth(adj: Seq<Seq<(usize, u64)>>, u: int, v: int) -> int {
    weight_to(adj[u], v) * total(adj) - row_sum(adj[u]) * row_sum(adj[v])
}

/// What a node is worth together with those of the first `k` nodes that have a label, `skip`
/// aside.
pub open spec fn class_worth(
    adj: Seq<Seq<(usize, u64)>>,
    labels: Seq<usize>,
    u: int,
    c: usize,
    skip: int,
    k: int,
) -> int
    decreases k,
{
    if k <= 0 {
        0
    } else {
        class_worth(adj, labels, u, c, skip, k - 1) + (if k - 1 != skip && labels[k - 1] == c {
            worth(adj, u, k - 1)
        } else {
            0
        })
    }
}

/// The modularity of a partition, as far as the first `k` nodes go and times the square of
/// the sum of all degrees: what all pairs within one community are worth.
pub open spec fn modularity(adj: Seq<Seq<(usize, u64)>>, labels: Seq<usize>, k: int) -> int
    decreases k,
{
    if k <= 0 {
        0
    } else {
        modularity(adj, labels, k - 1) + class_worth(
            adj,
            labels,
            k - 1,
            labels[k - 1],
            -1,
            adj.len() as int,
        )
    }
}

/// Whether the weight between two nodes is the same from either side.
pub open spec fn symmetric(adj: Seq<Seq<(usize, u64)>>) -> bool {
    forall|u: int, v: int|
        0 <= u < adj.len() && 0 <= v < adj.len() ==> #[trigger] weight_to(adj[u], v) == weight_to(
            adj[v],
            u,
        )
}

/// The weight of a row into those of the first `k` nodes that have a label, `node` aside.
spec fn reach(row: Seq<(usize, u64)>, node: int, labels: Seq<usize>, c: usize, k: int) -> nat
    decreases k,
{
    if k <= 0 {
        0
    } else {
        reach(row, node, labels, c, k - 1) + (if k - 1 != node && labels[k - 1] == c {
            weight_to(row, k - 1)
        } else {
            0
        })
    }
}

proof fn lemma_reach_push(
    row: Seq<(usize, u64)>,
    e: (usize, u64),
    node: int,
    labels: Seq<usize>,
    c: usize,
    k: int,
)
    ensures
        reach(row.push(e), node, labels, c, k) == reach(row, node, labels, c, k) + (if e.0 < k
            && e.0 != node && labels[e.0 as int] == c {
            e.1 as nat
        } else {
            0
        }),
    decreases k,
{
    if k > 0 {
        lemma_reach_push(row, e, node, labels, c, k - 1);
        assert(row.push(e).drop_last() == row);
    }
}

proof fn lemma_reach_none(node: int, labels: Seq<usize>, c: usize, k: int)
    ensures
        reach(Seq::empty(), node, labels, c, k) == 0,
    decreases k,
{
    if k > 0 {
        lemma_reach_none(node, labels, c, k - 1);
    }
}

proof fn lemma_reach(row: Seq<(usize, u64)>, node: int, labels: Seq<usize>, c: usize, n: int)
    requires
        forall|k: int| 0 <= k < row.len() ==> (#[trigger] row[k]).0 < n,
    ensures
        reach(row, node, labels, c, n) == weight_into(row, node, labels, c),
    decreases row.len(),
{
    if row.len() == 0 {
        assert(row == Seq::<(usize, u64)>::empty());
        lemma_reach_none(node, labels, c, n);
    } else {
        let rest = row.drop_last();
        assert forall|k: int| 0 <= k < rest.len() implies (#[trigger] rest[k]).0 < n by {
            assert(rest[k] == row[k]);
        }
        lemma_reach(rest, node, labels, c, n);
        lemma_reach_push(rest, row.last(), node, labels, c, n);
        assert(rest.push(row.last()) == row);
        assert(row[row.len() - 1].0 < n);
    }
}

proof fn lemma_class_worth(
    adj: Seq<Seq<(usize, u64)>>,
    labels: Seq<usize>,
    node: int,
    c: usize,
    k: int,
)
    ensures
        class_worth(adj, labels, node, c, node, k) == reach(adj[node], node, labels, c, k) * total(
            adj,
        ) - class_degree(adj, labels, c, node, k) * row_sum(adj[node]),
    decreases k,
{
    let t = total(adj) as int;
    let d = row_sum(adj[node]) as int;
    if k > 0 {
        lemma_class_worth(adj, labels, node, c, k - 1);
        let r = reach(adj[node], node, labels, c, k - 1) as int;
        let m = class_degree(adj, labels, c, node, k - 1) as int;
        let w = weight_to(adj[node], k - 1) as int;
        let e = row_sum(adj[k - 1]) as int;
        assert((r + w) * t - (m + e) * d == r * t - m * d + (w * t - d * e)) by (nonlinear_arith);
    } else {
        assert(0 * t - 0 * d == 0);
    }
}

/// What a node gains in a community is what it is worth together with its members.
proof fn lemma_gain_is_worth(
    adj: Seq<Seq<(usize, u64)>>,
    labels: Seq<usize>,
    node: int,
    c: usize,
)
    requires
        inside(adj),
        labels.len() == adj.len(),
        0 <= node < adj.len(),
    ensures
        gain(adj, labels, node, c) == class_worth(adj, labels, node, c, node, adj.len() as int),
{
    let n = adj.len() as int;
    lemma_class_worth(adj, labels, node, c, n);
    assert forall|k: int| 0 <= k < adj[node].len() implies (#[trigger] adj[node][k]).0 < n by {}
    lemma_reach(adj[node], node, labels, c, n);
}

proof fn lemma_worth_split(
    adj: Seq<Seq<(usize, u64)>>,
    labels: Seq<usize>,
    u: int,
    c: usize,
    node: int,
    k: int,
)
    requires
        0 <= node,
    ensures
        class_worth(adj, labels, u, c, -1, k) == class_worth(adj, labels, u, c, node, k) + (if node
            < k && labels[node] == c {
            worth(adj, u, node)
        } else {
            0
        }),
    decreases k,
{
    if k > 0 {
        lemma_worth_split(adj, labels, u, c, node, k - 1);
    }
}

proof fn lemma_worth_without(
    adj: Seq<Seq<(usize, u64)>>,
    labels: Seq<usize>,
    u: int,
    c: usize,
    node: int,
    b: usize,
    k: int,
)
    requires
        0 <= node < labels.len(),
        k <= labels.len(),
    ensures
        class_worth(adj, labels.update(node, b), u, c, node, k) == class_worth(
            adj,
            labels,
            u,
            c,
            node,
            k,
        ),
    decreases k,
{
    if k > 0 {
        lemma_worth_without(adj, labels, u, c, node, b, k - 1);
    }
}

/// What the pairs among the first `k` nodes and all nodes are worth, one node left out.
spec fn others(adj: Seq<Seq<(usize, u64)>>, labels: Seq<usize>, node: int, k: int) -> int
    decreases k,
{
    if k <= 0 {
        0
    } else {
        others(adj, labels, node, k - 1) + (if k - 1 != node {
            class_worth(adj, labels, k - 1, labels[k - 1], node, adj.len() as int)
        } else {
            0
        })
    }
}

proof fn lemma_others_without(
    adj: Seq<Seq<(usize, u64)>>,
    labels: Seq<usize>,
    node: int,
    b: usize,
    k: int,
)
    requires
        0 <= node < labels.len(),
        labels.len() == adj.len(),
        k <= labels.len(),
    ensures
        others(adj, labels.update(node, b), node, k) == others(adj, labels, node, k),
    decreases k,
{
    if k > 0 {
        lemma_others_without(adj, labels, node, b, k - 1);
        if k - 1 != node {
            lemma_worth_without(
                adj,
                labels,
                k - 1,
                labels[k - 1],
                node,
                b,
                adj.len() as int,
            );
        }
    }
}

proof fn lemma_worth_symmetric(adj: Seq<Seq<(usize, u64)>>, u: int, v: int)
    requires
        symmetric(adj),
        0 <= u < adj.len(),
        0 <= v < adj.len(),
    ensures
        worth(adj, u, v) == worth(adj, v, u),
{
    assert(weight_to(adj[u], v) == weight_to(adj[v], u));
    let a = row_sum(adj[u]) as int;
    let b = row_sum(adj[v]) as int;
    assert(a * b == b * a) by (nonlinear_arith);
}

proof fn lemma_modularity_split(
    adj: Seq<Seq<(usize, u64)>>,
    labels: Seq<usize>,
    node: int,
    k: int,
)
    requires
        symmetric(adj),
        labels.len() == adj.len(),
        0 <= node < adj.len(),
        0 <= k <= adj.len(),
    ensures
        modularity(adj, labels, k) == others(adj, labels, node, k) + class_worth(
            adj,
            labels,
            node,
            labels[node],
            node,
            k,
        ) + (if node < k {
            class_worth(adj, labels, node, labels[node], node, adj.len() as int) + worth(
                adj,
                node,
                node,
            )
        } else {
            0
        }),
    decreases k,
{
    if k > 0 {
        lemma_modularity_split(adj, labels, node, k - 1);
        let u = k - 1;
        lemma_worth_split(adj, labels, u, labels[u], node, adj.len() as int);
        lemma_worth_symmetric(adj, u, node);
    }
}

/// Moving a node changes the modularity by twice the difference of what it gains.
proof fn lemma_move(adj: Seq<Seq<(usize, u64)>>, labels: Seq<usize>, node: int, c: usize)
    requires
        symmetric(adj),
        inside(adj),
        labels.len() == adj.len(),
        0 <= node < adj.len(),
    ensures
        modularity(adj, labels.update(node, c), adj.len() as int) - modularity(
            adj,
            labels,
            adj.len() as int,
        ) == 2 * (gain(adj, labels, node, c) - gain(adj, labels, node, labels[node])),
{
    let n = adj.len() as int;
    let after = labels.update(node, c);
    lemma_modularity_split(adj, labels, node, n);
    lemma_modularity_split(adj, after, node, n);
    lemma_others_without(adj, labels, node, c, n);
    lemma_worth_without(adj, labels, node, c, node, c, n);
    lemma_gain_is_worth(adj, labels, node, c);
    lemma_gain_is_worth(adj, labels, node, labels[node]);
}

proof fn lemma_sweep_gains(adj: Seq<Seq<(usize, u64)>>, labels: Seq<usize>, k: int)
    requires
        symmetric(adj),
        inside(adj),
        labels.len() == adj.len(),
        0 <= k <= adj.len(),
    ensures
        sweep(adj, labels, k).len() == adj.len(),
        modularity(adj, sweep(adj, labels, k), adj.len() as int) >= modularity(
            adj,
            labels,
            adj.len() as int,
        ),
    decreases k,
{
    if k > 0 {
        lemma_sweep_gains(adj, labels, k - 1);
        let before = sweep(adj, labels, k - 1);
        let c = best(adj, before, k - 1);
        lemma_best_is(adj, before, k - 1);
        lemma_move(adj, before, k - 1, c);
        let n = adj[k - 1].len() as int;
        assert(may_join(adj, before, k - 1, before[k - 1], n));
        if c != before[k - 1] {
            assert(better(adj, before, k - 1, c, before[k - 1]));
        }
    }
}

proof fn lemma_settled_gains(adj: Seq<Seq<(usize, u64)>>, labels: Seq<usize>, fuel: nat)
    requires
        symmetric(adj),
        inside(adj),
        labels.len() == adj.len(),
    ensures
        modularity(adj, settled(adj, labels, fuel), adj.len() as int) >= modularity(
            adj,
            labels,
            adj.len() as int,
        ),
    decreases fuel,
{
    if fuel > 0 {
        lemma_sweep_gains(adj, labels, adj.len() as int);
        let next = sweep(adj, labels, adj.len() as int);
        if next != labels {
            lemma_settled_gains(adj, next, (fuel - 1) as nat);
        }
    }
}

/// A level never lowers the modularity: its communities are worth at least as much as every
/// node by itself.
pub proof fn a_level_does_not_lower_modularity(adj: Seq<Seq<(usize, u64)>>)
    requires
        symmetric(adj),
        inside(adj),
    ensures
        modularity(adj, level_labels(adj), adj.len() as int) >= modularity(
            adj,
            apart(adj.len()),
            adj.len() as int,
        ),
{
    lemma_settled_gains(adj, apart(adj.len()), MAX_SWEEPS as nat);
}

proof fn lemma_sweep_still(adj: Seq<Seq<(usize, u64)>>, labels: Seq<usize>, k: int, n: int)
    requires
        0 <= k <= n <= labels.len(),
        sweep(adj, labels, n) == labels,
    ensures
        sweep(adj, labels, k) == labels,
        k < n ==> best(adj, labels, k) == labels[k],
    decreases n,
{
    lemma_sweep_len(adj, labels, n);
    if k < n {
        let before = sweep(adj, labels, n - 1);
        lemma_sweep_len(adj, labels, n - 1);
        lemma_sweep_front(adj, labels, n - 1);
        assert(before =~= labels) by {
            assert forall|u: int| 0 <= u < labels.len() implies before[u] == labels[u] by {
                if u != n - 1 {
                    assert(sweep(adj, labels, n)[u] == before[u]);
                }
            }
        }
        assert(labels.update(n - 1, best(adj, labels, n - 1)) == labels);
        assert(labels.update(n - 1, best(adj, labels, n - 1))[n - 1] == labels[n - 1]);
        lemma_sweep_still(adj, labels, k, n - 1);
    }
}

proof fn lemma_sweep_front(adj: Seq<Seq<(usize, u64)>>, labels: Seq<usize>, k: int)
    requires
        0 <= k <= labels.len(),
    ensures
        forall|u: int| k <= u < labels.len() ==> #[trigger] sweep(adj, labels, k)[u] == labels[u],
    decreases k,
{
    if k > 0 {
        lemma_sweep_front(adj, labels, k - 1);
        lemma_sweep_len(adj, labels, k - 1);
    }
}

/// Where a sweep moves nothing, no node would be better off with a neighbour: the modularity
/// would fall, or stay as it is in a community with a higher number.
pub proof fn settled_nodes_are_where_they_fit_best(
    adj: Seq<Seq<(usize, u64)>>,
    labels: Seq<usize>,
    node: int,
    k: int,
)
    requires
        symmetric(adj),
        inside(adj),
        labels.len() == adj.len(),
        sweep(adj, labels, adj.len() as int) == labels,
        0 <= node < adj.len(),
        0 <= k < adj[node].len(),
    ensures
        ({
            let c = labels[adj[node][k].0 as int];
            let n = adj.len() as int;
            let moved = modularity(adj, labels.update(node, c), n);
            &&& moved <= modularity(adj, labels, n)
            &&& c < labels[node] ==> moved < modularity(adj, labels, n)
        }),
{
    let n = adj.len() as int;
    let c = labels[adj[node][k].0 as int];
    lemma_sweep_still(adj, labels, node, n);
    lemma_best_is(adj, labels, node);
    lemma_move(adj, labels, node, c);
    if c != labels[node] {
        assert(adj[node][k].0 != node);
        assert(may_join(adj, labels, node, c, adj[node].len() as int));
        assert(better(adj, labels, node, labels[node], c));
    } else {
        assert(labels.update(node, c) =~= labels);
    }
}

/// The labels after a number of sweeps over all nodes.
pub open spec fn swept(adj: Seq<Seq<(usize, u64)>>, labels: Seq<usize>, times: nat) -> Seq<usize>
    decreases times,
{
    if times == 0 {
        labels
    } else {
        sweep(adj, swept(adj, labels, (times - 1) as nat), adj.len() as int)
    }
}

proof fn lemma_swept_front(adj: Seq<Seq<(usize, u64)>>, labels: Seq<usize>, times: nat)
    ensures
        swept(adj, labels, times + 1) == swept(
            adj,
            sweep(adj, labels, adj.len() as int),
            times,
        ),
    decreases times,
{
    let next = sweep(adj, labels, adj.len() as int);
    assert(swept(adj, labels, times + 1) == sweep(
        adj,
        swept(adj, labels, times),
        adj.len() as int,
    ));
    if times > 0 {
        let less = (times - 1) as nat;
        lemma_swept_front(adj, labels, less);
        assert(less + 1 == times);
        assert(swept(adj, next, times) == sweep(adj, swept(adj, next, less), adj.len() as int));
    }
}

proof fn lemma_swept_still(adj: Seq<Seq<(usize, u64)>>, labels: Seq<usize>, times: nat)
    requires
        sweep(adj, labels, adj.len() as int) == labels,
    ensures
        swept(adj, labels, times) == labels,
    decreases times,
{
    if times > 0 {
        lemma_swept_still(adj, labels, (times - 1) as nat);
    }
}

proof fn lemma_settled_is_swept(adj: Seq<Seq<(usize, u64)>>, labels: Seq<usize>, fuel: nat)
    ensures
        settled(adj, labels, fuel) == swept(adj, labels, fuel),
    decreases fuel,
{
    if fuel > 0 {
        let next = sweep(adj, labels, adj.len() as int);
        if next == labels {
            lemma_swept_still(adj, labels, fuel);
        } else {
            lemma_settled_is_swept(adj, next, (fuel - 1) as nat);
            lemma_swept_front(adj, labels, (fuel - 1) as nat);
        }
    }
}

/// A level is thirty sweeps over all nodes, each from a community of its own, and none where
/// no edge weighs anything.
pub proof fn a_level_is_thirty_sweeps(adj: Seq<Seq<(usize, u64)>>)
    ensures
        total(adj) > 0 ==> level_labels(adj) == swept(
            adj,
            Seq::new(adj.len(), |i: int| i as usize),
            30,
        ),
        total(adj) == 0 ==> level_labels(adj) == Seq::new(adj.len(), |i: int| i as usize),
{
    lemma_settled_is_swept(adj, apart(adj.len()), MAX_SWEEPS as nat);
    assert(apart(adj.len()) =~= Seq::new(adj.len(), |i: int| i as usize));
}

/// The weights of a graph are the same from either side, and lead to sections.
pub proof fn weights_are_symmetric(graph: Graph)
    requires
        graph.well_formed(),
        graph.nodes().len() <= usize::MAX,
    ensures
        symmetric(graph.weights()),
        inside(graph.weights()),
{
    let adj = graph.weights();
    assert forall|u: int, v: int| 0 <= u < adj.len() && 0 <= v < adj.len() implies
        #[trigger] weight_to(adj[u], v) == weight_to(adj[v], u) by {
        every_edge_weighs_between_its_ends(graph, u as usize, v as usize);
    }
    assert forall|u: int, k: int| 0 <= u < adj.len() && 0 <= k < adj[u].len() implies (
    #[trigger] adj[u][k]).0 < adj.len() by {
        lemma_edges_join(graph, u);
    }
}

/// The weight of a row into the nodes with a label.
pub open spec fn weight_to_label(row: Seq<(usize, u64)>, labels: Seq<usize>, c: int) -> nat
    decreases row.len(),
{
    if row.len() == 0 {
        0
    } else {
        weight_to_label(row.drop_last(), labels, c) + (if labels[row.last().0 as int] == c {
            row.last().1 as nat
        } else {
            0
        })
    }
}

/// The weight from those of the first `k` nodes that have one label into the nodes with
/// another.
pub open spec fn weight_between(
    adj: Seq<Seq<(usize, u64)>>,
    labels: Seq<usize>,
    c: int,
    d: int,
    k: int,
) -> nat
    decreases k,
{
    if k <= 0 {
        0
    } else {
        weight_between(adj, labels, c, d, k - 1) + (if labels[k - 1] == c {
            weight_to_label(adj[k - 1], labels, d)
        } else {
            0
        })
    }
}

proof fn lemma_weight_to_add(a: Seq<(usize, u64)>, b: Seq<(usize, u64)>, d: int)
    ensures
        weight_to(a + b, d) == weight_to(a, d) + weight_to(b, d),
    decreases b.len(),
{
    if b.len() == 0 {
        assert(a + b == a);
    } else {
        lemma_weight_to_add(a, b.drop_last(), d);
        assert((a + b).drop_last() == a + b.drop_last());
        assert((a + b).last() == b.last());
    }
}

proof fn lemma_weight_relabelled(row: Seq<(usize, u64)>, labels: Seq<usize>, d: int)
    ensures
        weight_to(relabelled(row, labels), d) == weight_to_label(row, labels, d),
    decreases row.len(),
{
    if row.len() > 0 {
        lemma_weight_relabelled(row.drop_last(), labels, d);
        assert(relabelled(row, labels).drop_last() == relabelled(row.drop_last(), labels));
    }
}

proof fn lemma_weight_merged(
    adj: Seq<Seq<(usize, u64)>>,
    labels: Seq<usize>,
    c: int,
    d: int,
    k: int,
)
    ensures
        weight_to(merged_row(adj, labels, c, k), d) == weight_between(adj, labels, c, d, k),
    decreases k,
{
    if k > 0 {
        lemma_weight_merged(adj, labels, c, d, k - 1);
        let before = merged_row(adj, labels, c, k - 1);
        if labels[k - 1] == c {
            lemma_weight_to_add(before, relabelled(adj[k - 1], labels), d);
            lemma_weight_relabelled(adj[k - 1], labels, d);
        } else {
            assert(before + Seq::<(usize, u64)>::empty() == before);
        }
    }
}

/// Contracting keeps the weight between communities: between two nodes of the contracted graph
/// it is what their members weigh together, and within one as well.
pub proof fn contraction_keeps_the_weight_between_communities(
    adj: Seq<Seq<(usize, u64)>>,
    labels: Seq<usize>,
    count: nat,
    c: int,
    d: int,
)
    requires
        0 <= c < count,
    ensures
        weight_to(contracted(adj, labels, count)[c], d) == weight_between(
            adj,
            labels,
            c,
            d,
            adj.len() as int,
        ),
{
    lemma_weight_merged(adj, labels, c, d, adj.len() as int);
}

} // verus!
