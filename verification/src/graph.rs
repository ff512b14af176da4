//! The vault as a typed graph, and the algorithms that read it.
//!
//! The edges are written by hand, so each can be trusted outright. Build a [`Graph`]
//! from [`GraphData`]; the rest is computation over indices.

use vstd::prelude::*;
use vstd::string::*;

use crate::model::{clone_text, GraphData, GraphLink, GraphSection};
use crate::text::{opt_view, text_eq};

verus! {

/// Index into [`Graph::sections`].
pub type NodeIndex = usize;

/// A section, as the graph sees it.
#[derive(Debug)]
pub struct Node {
    pub uid: String,
    pub note_id: String,
    pub heading: String,
    pub parent_uid: Option<String>,
    pub level: u32,
    pub start_line: usize,
}

/// One typed edge, resolved to indices.
#[derive(Debug, Clone, Copy, PartialEq, Eq, Structural)]
pub struct Edge {
    pub source: NodeIndex,
    pub target: NodeIndex,
    pub relation: RelationType,
}

/// The relation vocabulary, plus an escape hatch.
#[derive(Debug, Clone, Copy, PartialEq, Eq, Structural, Hash)]
pub enum RelationType {
    /// A bare `[[link]]` with no prefix.
    Related,
    Outgoing,
    Ingoing,
    /// The strongest signal in the vocabulary: the author says these disagree.
    Contradicts,
    ExampleOf,
    /// This section replaces the target.
    Supersedes,
    /// A structural edge from parent to child, not written by the author.
    Parent,
    /// Anything else that a note may hold.
    Other,
}

/// The word for a relation.
pub open spec fn relation_word(relation: RelationType) -> Seq<char> {
    match relation {
        RelationType::Related => "related"@,
        RelationType::Outgoing => "outgoing"@,
        RelationType::Ingoing => "ingoing"@,
        RelationType::Contradicts => "contradicts"@,
        RelationType::ExampleOf => "example-of"@,
        RelationType::Supersedes => "supersedes"@,
        RelationType::Parent => "parent"@,
        RelationType::Other => "other"@,
    }
}

/// The relation that a word stands for.
pub open spec fn relation_named(word: Seq<char>) -> RelationType {
    if word == "related"@ {
        RelationType::Related
    } else if word == "outgoing"@ {
        RelationType::Outgoing
    } else if word == "ingoing"@ {
        RelationType::Ingoing
    } else if word == "contradicts"@ {
        RelationType::Contradicts
    } else if word == "example-of"@ {
        RelationType::ExampleOf
    } else if word == "supersedes"@ {
        RelationType::Supersedes
    } else if word == "parent"@ {
        RelationType::Parent
    } else {
        RelationType::Other
    }
}

/// How much an edge counts, in hundredths. `contradicts` counts most, since
/// answering from a note that was later contradicted is the failure to avoid; a
/// parent, which nobody wrote, counts least.
pub open spec fn relation_weight(relation: RelationType) -> u64 {
    match relation {
        RelationType::Contradicts => 100,
        RelationType::Supersedes => 90,
        RelationType::ExampleOf => 75,
        RelationType::Ingoing => 70,
        RelationType::Outgoing => 65,
        RelationType::Related => 60,
        RelationType::Other => 50,
        RelationType::Parent => 30,
    }
}

impl RelationType {
    pub fn parse(value: &str) -> (r: Self)
        ensures
            r == relation_named(value@),
    {
        if text_eq(value, "related") {
            RelationType::Related
        } else if text_eq(value, "outgoing") {
            RelationType::Outgoing
        } else if text_eq(value, "ingoing") {
            RelationType::Ingoing
        } else if text_eq(value, "contradicts") {
            RelationType::Contradicts
        } else if text_eq(value, "example-of") {
            RelationType::ExampleOf
        } else if text_eq(value, "supersedes") {
            RelationType::Supersedes
        } else if text_eq(value, "parent") {
            RelationType::Parent
        } else {
            RelationType::Other
        }
    }

    pub fn as_str(self) -> (r: &'static str)
        ensures
            r@ == relation_word(self),
    {
        match self {
            RelationType::Related => "related",
            RelationType::Outgoing => "outgoing",
            RelationType::Ingoing => "ingoing",
            RelationType::Contradicts => "contradicts",
            RelationType::ExampleOf => "example-of",
            RelationType::Supersedes => "supersedes",
            RelationType::Parent => "parent",
            RelationType::Other => "other",
        }
    }

    /// How much traversing this edge counts for, in hundredths.
    pub fn weight_hundredths(self) -> (r: u64)
        ensures
            r == relation_weight(self),
    {
        match self {
            RelationType::Contradicts => 100,
            RelationType::Supersedes => 90,
            RelationType::ExampleOf => 75,
            RelationType::Ingoing => 70,
            RelationType::Outgoing => 65,
            RelationType::Related => 60,
            RelationType::Other => 50,
            RelationType::Parent => 30,
        }
    }
}

/// A relation read back from its word is that relation.
pub proof fn a_relation_is_read_back_from_its_word(relation: RelationType)
    ensures
        relation_named(relation_word(relation)) == relation,
{
    reveal_strlit("related");
    reveal_strlit("outgoing");
    reveal_strlit("ingoing");
    reveal_strlit("contradicts");
    reveal_strlit("example-of");
    reveal_strlit("supersedes");
    reveal_strlit("parent");
    reveal_strlit("other");
    assert("related"@.len() == 7 && "related"@[0] == 'r');
    assert("outgoing"@.len() == 8);
    assert("ingoing"@.len() == 7 && "ingoing"@[0] == 'i');
    assert("contradicts"@.len() == 11);
    assert("example-of"@.len() == 10 && "example-of"@[0] == 'e');
    assert("supersedes"@.len() == 10 && "supersedes"@[0] == 's');
    assert("parent"@.len() == 6);
    assert("other"@.len() == 5);
}

// ---------------------------------------------------------------------------
// Building
// ---------------------------------------------------------------------------

/// The last index of a uid, if it is there.
pub open spec fn index_in(uids: Seq<Seq<char>>, uid: Seq<char>) -> Option<int>
    decreases uids.len(),
{
    if uids.len() == 0 {
        None
    } else if uids.last() == uid {
        Some(uids.len() - 1)
    } else {
        index_in(uids.drop_last(), uid)
    }
}

/// The uids of sections.
pub open spec fn section_uids(sections: Seq<GraphSection>) -> Seq<Seq<char>> {
    Seq::new(sections.len(), |i: int| sections[i].uid@)
}

/// The uids of nodes.
pub open spec fn node_uids(nodes: Seq<Node>) -> Seq<Seq<char>> {
    Seq::new(nodes.len(), |i: int| nodes[i].uid@)
}

/// The edge that a link stands for; none where an end does not exist.
pub open spec fn link_edge(uids: Seq<Seq<char>>, link: GraphLink) -> Option<Edge> {
    match (index_in(uids, link.source@), index_in(uids, link.target@)) {
        (Some(source), Some(target)) => Some(
            Edge {
                source: source as usize,
                target: target as usize,
                relation: relation_named(link.relation_type@),
            },
        ),
        _ => None,
    }
}

/// The edge from its parent to a section; none where it has no parent here.
pub open spec fn parent_edge(uids: Seq<Seq<char>>, parent: Option<Seq<char>>, child: int) -> Option<
    Edge,
> {
    match parent {
        Some(uid) => match index_in(uids, uid) {
            Some(source) => Some(
                Edge {
                    source: source as usize,
                    target: child as usize,
                    relation: RelationType::Parent,
                },
            ),
            None => None,
        },
        None => None,
    }
}

/// `edges` and one more, where there is one.
pub open spec fn with_edge(edges: Seq<Edge>, edge: Option<Edge>) -> Seq<Edge> {
    match edge {
        Some(e) => edges.push(e),
        None => edges,
    }
}

/// The edges of the links, in order.
pub open spec fn link_edges(uids: Seq<Seq<char>>, links: Seq<GraphLink>) -> Seq<Edge>
    decreases links.len(),
{
    if links.len() == 0 {
        Seq::empty()
    } else {
        with_edge(link_edges(uids, links.drop_last()), link_edge(uids, links.last()))
    }
}

/// The edges to the first sections from their parents, behind those given.
pub open spec fn parent_edges(
    uids: Seq<Seq<char>>,
    sections: Seq<GraphSection>,
    count: int,
    edges: Seq<Edge>,
) -> Seq<Edge>
    decreases count,
{
    if count <= 0 {
        edges
    } else {
        with_edge(
            parent_edges(uids, sections, count - 1, edges),
            parent_edge(uids, opt_view(sections[count - 1].parent_uid), count - 1),
        )
    }
}

/// All edges: those the author wrote, then those from parent to child.
pub open spec fn graph_edges(data: GraphData) -> Seq<Edge> {
    let uids = section_uids(data.sections@);
    parent_edges(
        uids,
        data.sections@,
        data.sections@.len() as int,
        link_edges(uids, data.links@),
    )
}

/// The edges that start at `i`, in order.
pub open spec fn starting_at(edges: Seq<Edge>, i: int) -> Seq<Edge>
    decreases edges.len(),
{
    if edges.len() == 0 {
        Seq::empty()
    } else {
        let before = starting_at(edges.drop_last(), i);
        if edges.last().source == i {
            before.push(edges.last())
        } else {
            before
        }
    }
}

/// The edges that end at `i`, in order.
pub open spec fn ending_at(edges: Seq<Edge>, i: int) -> Seq<Edge>
    decreases edges.len(),
{
    if edges.len() == 0 {
        Seq::empty()
    } else {
        let before = ending_at(edges.drop_last(), i);
        if edges.last().target == i {
            before.push(edges.last())
        } else {
            before
        }
    }
}

/// How often an edge stands in a list.
pub open spec fn times(edges: Seq<Edge>, e: Edge) -> nat
    decreases edges.len(),
{
    if edges.len() == 0 {
        0
    } else if edges.last() == e {
        times(edges.drop_last(), e) + 1
    } else {
        times(edges.drop_last(), e)
    }
}

/// The vault's sections and the edges between them. Adjacency is stored both ways,
/// since what points at a section matters as much as what it points at.
pub struct Graph {
    sections: Vec<Node>,
    /// `outgoing[i]`: edges whose source is `i`.
    outgoing: Vec<Vec<Edge>>,
    /// `incoming[i]`: edges whose target is `i`.
    incoming: Vec<Vec<Edge>>,
}

impl Graph {
    /// The sections.
    pub closed spec fn nodes(self) -> Seq<Node> {
        self.sections@
    }

    /// The edges from the section at `i`.
    pub closed spec fn edges_from(self, i: int) -> Seq<Edge> {
        self.outgoing@[i]@
    }

    /// The edges to the section at `i`.
    pub closed spec fn edges_to(self, i: int) -> Seq<Edge> {
        self.incoming@[i]@
    }

    /// Every edge joins two sections, and stands under its source as often as under its
    /// target.
    pub closed spec fn well_formed(self) -> bool {
        &&& self.outgoing.len() == self.sections.len()
        &&& self.incoming.len() == self.sections.len()
        &&& forall|i: int, k: int|
            0 <= i < self.sections.len() && 0 <= k < self.outgoing@[i]@.len() ==> (
            #[trigger] self.outgoing@[i]@[k]).source == i && self.outgoing@[i]@[k].target
                < self.sections.len()
        &&& forall|i: int, k: int|
            0 <= i < self.sections.len() && 0 <= k < self.incoming@[i]@.len() ==> (
            #[trigger] self.incoming@[i]@[k]).target == i && self.incoming@[i]@[k].source
                < self.sections.len()
        &&& forall|e: Edge|
            e.source < self.sections.len() && e.target < self.sections.len() ==> times(
                self.outgoing@[e.source as int]@,
                e,
            ) == #[trigger] times(self.incoming@[e.target as int]@, e)
    }

    /// The uids of the sections.
    pub open spec fn uids(self) -> Seq<Seq<char>> {
        node_uids(self.nodes())
    }

    /// Whether the graph holds these edges, in this order.
    pub open spec fn holds_edges(self, edges: Seq<Edge>) -> bool {
        forall|i: int|
            0 <= i < self.nodes().len() ==> #[trigger] self.edges_from(i) == starting_at(edges, i)
                && self.edges_to(i) == ending_at(edges, i)
    }

    /// Builds from a snapshot. Edges that name a section that does not exist are
    /// dropped.
    pub fn new(data: &GraphData) -> (r: Self)
        ensures
            r.well_formed(),
            r.nodes().len() == data.sections.len(),
            forall|i: int|
                0 <= i < data.sections.len() ==> node_is(
                    #[trigger] r.nodes()[i],
                    data.sections@[i],
                ),
            r.holds_edges(graph_edges(*data)),
    {
        let mut sections: Vec<Node> = Vec::new();
        let mut outgoing: Vec<Vec<Edge>> = Vec::new();
        let mut incoming: Vec<Vec<Edge>> = Vec::new();
        let ghost uids = section_uids(data.sections@);
        let mut i: usize = 0;
        while i < data.sections.len()
            invariant
                0 <= i <= data.sections.len(),
                sections.len() == i,
                outgoing.len() == i,
                incoming.len() == i,
                forall|k: int| 0 <= k < i ==> node_is(#[trigger] sections@[k], data.sections@[k]),
                forall|k: int|
                    0 <= k < i ==> (#[trigger] outgoing@[k])@ == Seq::<Edge>::empty()
                        && incoming@[k]@ == Seq::<Edge>::empty(),
            decreases data.sections.len() - i,
        {
            let s = &data.sections[i];
            sections.push(
                Node {
                    uid: s.uid.clone(),
                    note_id: s.note_id.clone(),
                    heading: s.heading.clone(),
                    parent_uid: clone_text(&s.parent_uid),
                    level: s.level,
                    start_line: s.start_line,
                },
            );
            outgoing.push(Vec::new());
            incoming.push(Vec::new());
            i += 1;
        }
        let mut graph = Graph { sections, outgoing, incoming };
        assert(graph.uids() == uids);
        let ghost mut edges: Seq<Edge> = Seq::empty();
        assert forall|i: int| 0 <= i < graph.nodes().len() implies graph.outgoing@[i]@.len() == 0
            && graph.incoming@[i]@.len() == 0 && #[trigger] graph.edges_from(i) == starting_at(
            edges,
            i,
        ) && graph.edges_to(i) == ending_at(edges, i) by {
            assert(outgoing@[i]@ == Seq::<Edge>::empty());
        }
        assert forall|i: int, k: int|
            0 <= i < graph.sections.len() && 0 <= k < graph.outgoing@[i]@.len() implies (
        #[trigger] graph.outgoing@[i]@[k]).source == i && graph.outgoing@[i]@[k].target
            < graph.sections.len() by {
            assert(outgoing@[i]@ == Seq::<Edge>::empty());
        }
        assert forall|i: int, k: int|
            0 <= i < graph.sections.len() && 0 <= k < graph.incoming@[i]@.len() implies (
        #[trigger] graph.incoming@[i]@[k]).target == i && graph.incoming@[i]@[k].source
            < graph.sections.len() by {
            assert(outgoing@[i]@ == Seq::<Edge>::empty());
        }
        assert forall|e: Edge|
            e.source < graph.sections.len() && e.target < graph.sections.len() implies times(
            graph.outgoing@[e.source as int]@,
            e,
        ) == #[trigger] times(graph.incoming@[e.target as int]@, e) by {
            assert(outgoing@[e.source as int]@ == Seq::<Edge>::empty());
            assert(outgoing@[e.target as int]@ == Seq::<Edge>::empty());
        }
        assert(graph.well_formed());
        let mut k: usize = 0;
        assert(data.links@.take(0) == Seq::<GraphLink>::empty());
        while k < data.links.len()
            invariant
                0 <= k <= data.links.len(),
                graph.well_formed(),
                graph.nodes() == sections@,
                graph.uids() == uids,
                edges == link_edges(uids, data.links@.take(k as int)),
                graph.holds_edges(edges),
            decreases data.links.len() - k,
        {
            assert(data.links@.take(k + 1).drop_last() == data.links@.take(k as int));
            assert(data.links@.take(k + 1).last() == data.links@[k as int]);
            graph.insert(&data.links[k], Ghost(edges));
            proof {
                edges = with_edge(edges, link_edge(uids, data.links@[k as int]));
            }
            k += 1;
        }
        assert(data.links@.take(data.links.len() as int) == data.links@);
        let ghost written = edges;
        let mut c: usize = 0;
        while c < graph.sections.len()
            invariant
                0 <= c <= graph.sections.len(),
                graph.well_formed(),
                graph.nodes() == sections@,
                graph.uids() == uids,
                uids == section_uids(data.sections@),
                sections.len() == data.sections.len(),
                forall|j: int|
                    0 <= j < sections.len() ==> node_is(#[trigger] sections@[j], data.sections@[j]),
                edges == parent_edges(uids, data.sections@, c as int, written),
                graph.holds_edges(edges),
            decreases graph.sections.len() - c,
        {
            assert(node_is(sections@[c as int], data.sections@[c as int]));
            let found = match &graph.sections[c].parent_uid {
                Some(uid) => graph.index_of(uid.as_str()),
                None => None,
            };
            let edge = match found {
                Some(source) => Some(
                    Edge { source, target: c, relation: RelationType::Parent },
                ),
                None => None,
            };
            assert(edge == parent_edge(
                uids,
                opt_view(data.sections@[c as int].parent_uid),
                c as int,
            ));
            if let Some(e) = edge {
                graph.add_edge(e, Ghost(edges));
            }
            proof {
                edges = with_edge(edges, edge);
            }
            c += 1;
        }
        graph
    }

    fn add_edge(&mut self, edge: Edge, Ghost(edges): Ghost<Seq<Edge>>)
        requires
            old(self).well_formed(),
            old(self).holds_edges(edges),
            edge.source < old(self).nodes().len(),
            edge.target < old(self).nodes().len(),
        ensures
            final(self).well_formed(),
            final(self).nodes() == old(self).nodes(),
            final(self).holds_edges(edges.push(edge)),
    {
        let ghost before = *self;
        let mut list: Vec<Edge> = Vec::new();
        std::mem::swap(&mut list, &mut self.outgoing[edge.source]);
        list.push(edge);
        self.outgoing.set(edge.source, list);
        let mut list: Vec<Edge> = Vec::new();
        std::mem::swap(&mut list, &mut self.incoming[edge.target]);
        list.push(edge);
        self.incoming.set(edge.target, list);
        proof {
            let more = edges.push(edge);
            assert(more.drop_last() == edges);
            assert forall|i: int| 0 <= i < self.nodes().len() implies #[trigger] self.edges_from(i)
                == starting_at(more, i) && self.edges_to(i) == ending_at(more, i) by {
                assert(before.edges_from(i) == starting_at(edges, i));
            }
            assert(self.holds_edges(more));
            assert forall|e: Edge|
                e.source < self.sections.len() && e.target < self.sections.len() implies times(
                self.outgoing@[e.source as int]@,
                e,
            ) == #[trigger] times(self.incoming@[e.target as int]@, e) by {
                let out = before.outgoing@[e.source as int]@;
                let back = before.incoming@[e.target as int]@;
                assert(times(out, e) == times(back, e));
                assert(out.push(edge).drop_last() == out);
                assert(back.push(edge).drop_last() == back);
            }
        }
    }

    fn insert(&mut self, link: &GraphLink, Ghost(edges): Ghost<Seq<Edge>>)
        requires
            old(self).well_formed(),
            old(self).holds_edges(edges),
        ensures
            final(self).well_formed(),
            final(self).nodes() == old(self).nodes(),
            final(self).holds_edges(with_edge(edges, link_edge(old(self).uids(), *link))),
    {
        let source = match self.index_of(link.source.as_str()) {
            Some(i) => i,
            None => {
                return ;
            },
        };
        let target = match self.index_of(link.target.as_str()) {
            Some(i) => i,
            None => {
                return ;
            },
        };
        let relation = RelationType::parse(link.relation_type.as_str());
        self.add_edge(Edge { source, target, relation }, Ghost(edges));
    }

    pub fn len(&self) -> (r: usize)
        ensures
            r == self.nodes().len(),
    {
        self.sections.len()
    }

    pub fn is_empty(&self) -> (r: bool)
        ensures
            r == (self.nodes().len() == 0),
    {
        self.sections.len() == 0
    }

    pub fn sections(&self) -> (r: &[Node])
        ensures
            r@ == self.nodes(),
    {
        self.sections.as_slice()
    }

    pub fn node(&self, index: NodeIndex) -> (r: &Node)
        requires
            index < self.nodes().len(),
        ensures
            *r == self.nodes()[index as int],
    {
        &self.sections[index]
    }

    /// The index of a section; of two with the same uid, the later.
    pub fn index_of(&self, uid: &str) -> (r: Option<NodeIndex>)
        ensures
            match r {
                Some(i) => index_in(self.uids(), uid@) == Some(i as int) && i < self.nodes().len(),
                None => index_in(self.uids(), uid@) is None,
            },
    {
        let ghost uids = self.uids();
        let mut i: usize = self.sections.len();
        assert(uids.take(i as int) == uids);
        while i > 0
            invariant
                0 <= i <= self.sections.len(),
                uids == self.uids(),
                index_in(uids, uid@) == index_in(uids.take(i as int), uid@),
            decreases i,
        {
            assert(uids.take(i as int).drop_last() == uids.take(i - 1));
            assert(uids.take(i as int).last() == self.sections@[i - 1].uid@);
            if text_eq(self.sections[i - 1].uid.as_str(), uid) {
                return Some(i - 1);
            }
            i -= 1;
        }
        None
    }

    pub fn outgoing(&self, index: NodeIndex) -> (r: &[Edge])
        requires
            self.well_formed(),
            index < self.nodes().len(),
        ensures
            r@ == self.edges_from(index as int),
    {
        self.outgoing[index].as_slice()
    }

    pub fn incoming(&self, index: NodeIndex) -> (r: &[Edge])
        requires
            self.well_formed(),
            index < self.nodes().len(),
        ensures
            r@ == self.edges_to(index as int),
    {
        self.incoming[index].as_slice()
    }

    /// Edges in both directions, as (neighbour, edge, followed backwards).
    pub fn neighbours(&self, index: NodeIndex) -> (r: Vec<(NodeIndex, Edge, bool)>)
        requires
            self.well_formed(),
            index < self.nodes().len(),
        ensures
            r@ == both_ways(self.edges_from(index as int), self.edges_to(index as int)),
            forall|k: int| 0 <= k < r.len() ==> (#[trigger] r@[k]).0 < self.nodes().len(),
    {
        let mut r: Vec<(NodeIndex, Edge, bool)> = Vec::new();
        let ghost all = both_ways(self.edges_from(index as int), self.edges_to(index as int));
        let mut k: usize = 0;
        while k < self.outgoing[index].len()
            invariant
                index < self.outgoing.len(),
                0 <= k <= self.outgoing@[index as int].len(),
                all == both_ways(self.outgoing@[index as int]@, self.edges_to(index as int)),
                r@ == all.take(k as int),
            decreases self.outgoing@[index as int].len() - k,
        {
            let edge = self.outgoing[index][k];
            r.push((edge.target, edge, false));
            assert(all.take(k + 1) == all.take(k as int).push(all[k as int]));
            k += 1;
        }
        let ghost first = self.outgoing@[index as int]@.len();
        let mut k: usize = 0;
        while k < self.incoming[index].len()
            invariant
                index < self.incoming.len(),
                0 <= k <= self.incoming@[index as int].len(),
                all == both_ways(self.edges_from(index as int), self.incoming@[index as int]@),
                first == self.edges_from(index as int).len(),
                r@ == all.take(first + k),
            decreases self.incoming@[index as int].len() - k,
        {
            let edge = self.incoming[index][k];
            r.push((edge.source, edge, true));
            assert(all.take(first + k + 1) == all.take(first + k).push(all[first + k]));
            k += 1;
        }
        assert(r@ == all);
        assert forall|k: int| 0 <= k < r.len() implies (#[trigger] r@[k]).0
            < self.nodes().len() by {
            if k < first {
                assert(self.outgoing@[index as int]@[k].target < self.nodes().len());
            } else {
                assert(self.incoming@[index as int]@[k - first].source < self.nodes().len());
            }
        }
        r
    }

    /// Total edge count, both directions, ignoring type.
    pub fn degree(&self, index: NodeIndex) -> (r: usize)
        requires
            self.well_formed(),
            index < self.nodes().len(),
            self.edges_from(index as int).len() + self.edges_to(index as int).len() <= usize::MAX,
        ensures
            r == self.edges_from(index as int).len() + self.edges_to(index as int).len(),
    {
        self.outgoing[index].len() + self.incoming[index].len()
    }
}

/// Whether a node shows a section.
pub open spec fn node_is(node: Node, section: GraphSection) -> bool {
    &&& node.uid@ == section.uid@
    &&& node.note_id@ == section.note_id@
    &&& node.heading@ == section.heading@
    &&& opt_view(node.parent_uid) == opt_view(section.parent_uid)
    &&& node.level == section.level
    &&& node.start_line == section.start_line
}

/// Edges in both directions, as (neighbour, edge, followed backwards).
pub open spec fn both_ways(out: Seq<Edge>, back: Seq<Edge>) -> Seq<(NodeIndex, Edge, bool)> {
    Seq::new(
        out.len() + back.len(),
        |k: int|
            if k < out.len() {
                (out[k].target, out[k], false)
            } else {
                (back[k - out.len()].source, back[k - out.len()], true)
            },
    )
}

proof fn lemma_times(edges: Seq<Edge>, e: Edge)
    ensures
        times(edges, e) > 0 <==> edges.contains(e),
    decreases edges.len(),
{
    if edges.len() > 0 {
        let rest = edges.drop_last();
        lemma_times(rest, e);
        if rest.contains(e) {
            let k = choose|k: int| 0 <= k < rest.len() && rest[k] == e;
            assert(edges[k] == e);
        }
        if edges.contains(e) && edges.last() != e {
            let k = choose|k: int| 0 <= k < edges.len() && edges[k] == e;
            assert(rest[k] == e);
        }
    }
}

/// Adjacency holds both ways: an edge stands under its source exactly when it stands
/// under its target, and as often.
pub proof fn adjacency_holds_both_ways(graph: Graph, e: Edge)
    requires
        graph.well_formed(),
        e.source < graph.nodes().len(),
        e.target < graph.nodes().len(),
    ensures
        graph.edges_from(e.source as int).contains(e) <==> graph.edges_to(
            e.target as int,
        ).contains(e),
        times(graph.edges_from(e.source as int), e) == times(graph.edges_to(e.target as int), e),
{
    assert(times(graph.outgoing@[e.source as int]@, e) == times(
        graph.incoming@[e.target as int]@,
        e,
    ));
    lemma_times(graph.edges_from(e.source as int), e);
    lemma_times(graph.edges_to(e.target as int), e);
}

/// The edges under a section join it to sections that there are.
pub proof fn lemma_edges_join(graph: Graph, i: int)
    requires
        graph.well_formed(),
        0 <= i < graph.nodes().len(),
    ensures
        graph.nodes().len() <= usize::MAX,
        forall|k: int|
            0 <= k < graph.edges_from(i).len() ==> (#[trigger] graph.edges_from(i)[k]).source == i
                && graph.edges_from(i)[k].target < graph.nodes().len(),
        forall|k: int|
            0 <= k < graph.edges_to(i).len() ==> (#[trigger] graph.edges_to(i)[k]).target == i
                && graph.edges_to(i)[k].source < graph.nodes().len(),
{
    assert forall|k: int| 0 <= k < graph.edges_from(i).len() implies (
    #[trigger] graph.edges_from(i)[k]).source == i && graph.edges_from(i)[k].target
        < graph.nodes().len() by {
        assert(graph.outgoing@[i]@[k].source == i);
    }
    assert forall|k: int| 0 <= k < graph.edges_to(i).len() implies (
    #[trigger] graph.edges_to(i)[k]).target == i && graph.edges_to(i)[k].source
        < graph.nodes().len() by {
        assert(graph.incoming@[i]@[k].target == i);
    }
}

/// How many edges start at the first `count` sections.
pub open spec fn started(graph: Graph, count: int) -> nat
    decreases count,
{
    if count <= 0 {
        0
    } else {
        started(graph, count - 1) + graph.edges_from(count - 1).len()
    }
}

/// How many edges end at the first `count` sections.
pub open spec fn ended(graph: Graph, count: int) -> nat
    decreases count,
{
    if count <= 0 {
        0
    } else {
        ended(graph, count - 1) + graph.edges_to(count - 1).len()
    }
}

/// How many links join two sections that there are.
pub open spec fn links_inside(uids: Seq<Seq<char>>, links: Seq<GraphLink>) -> nat
    decreases links.len(),
{
    if links.len() == 0 {
        0
    } else {
        let link = links.last();
        links_inside(uids, links.drop_last()) + (if uids.contains(link.source@) && uids.contains(
            link.target@,
        ) {
            1nat
        } else {
            0nat
        })
    }
}

/// How many of the first `count` sections have a parent that there is.
pub open spec fn children(uids: Seq<Seq<char>>, sections: Seq<GraphSection>, count: int) -> nat
    decreases count,
{
    if count <= 0 {
        0
    } else {
        children(uids, sections, count - 1) + (match sections[count - 1].parent_uid {
            Some(parent) => if uids.contains(parent@) {
                1nat
            } else {
                0nat
            },
            None => 0nat,
        })
    }
}

/// Whether every edge joins two of `count` sections.
spec fn inside(edges: Seq<Edge>, count: int) -> bool {
    forall|k: int|
        0 <= k < edges.len() ==> (#[trigger] edges[k]).source < count && edges[k].target < count
}

proof fn lemma_index_in(uids: Seq<Seq<char>>, uid: Seq<char>)
    ensures
        index_in(uids, uid) is Some <==> uids.contains(uid),
        index_in(uids, uid) matches Some(i) ==> 0 <= i < uids.len(),
    decreases uids.len(),
{
    if uids.len() > 0 {
        let rest = uids.drop_last();
        lemma_index_in(rest, uid);
        if uids.last() == uid {
            assert(uids[uids.len() - 1] == uid);
        } else if uids.contains(uid) {
            let k = choose|k: int| 0 <= k < uids.len() && uids[k] == uid;
            assert(rest[k] == uid);
        } else if rest.contains(uid) {
            let k = choose|k: int| 0 <= k < rest.len() && rest[k] == uid;
            assert(uids[k] == uid);
        }
    }
}

proof fn lemma_link_edges(uids: Seq<Seq<char>>, links: Seq<GraphLink>)
    requires
        uids.len() <= usize::MAX,
    ensures
        link_edges(uids, links).len() == links_inside(uids, links),
        inside(link_edges(uids, links), uids.len() as int),
    decreases links.len(),
{
    if links.len() > 0 {
        lemma_link_edges(uids, links.drop_last());
        lemma_index_in(uids, links.last().source@);
        lemma_index_in(uids, links.last().target@);
    }
}

proof fn lemma_parent_edges(
    uids: Seq<Seq<char>>,
    sections: Seq<GraphSection>,
    count: int,
    edges: Seq<Edge>,
)
    requires
        0 <= count <= uids.len(),
        uids.len() <= usize::MAX,
        inside(edges, uids.len() as int),
    ensures
        parent_edges(uids, sections, count, edges).len() == edges.len() + children(
            uids,
            sections,
            count,
        ),
        inside(parent_edges(uids, sections, count, edges), uids.len() as int),
    decreases count,
{
    if count > 0 {
        lemma_parent_edges(uids, sections, count - 1, edges);
        match sections[count - 1].parent_uid {
            Some(parent) => {
                lemma_index_in(uids, parent@);
            },
            None => {},
        }
    }
}

/// The lengths of the lists of edges that start at the first `count` sections.
spec fn start_sum(edges: Seq<Edge>, count: int) -> nat
    decreases count,
{
    if count <= 0 {
        0
    } else {
        start_sum(edges, count - 1) + starting_at(edges, count - 1).len()
    }
}

/// The lengths of the lists of edges that end at the first `count` sections.
spec fn end_sum(edges: Seq<Edge>, count: int) -> nat
    decreases count,
{
    if count <= 0 {
        0
    } else {
        end_sum(edges, count - 1) + ending_at(edges, count - 1).len()
    }
}

proof fn lemma_sums_push(edges: Seq<Edge>, e: Edge, count: int)
    ensures
        start_sum(edges.push(e), count) == start_sum(edges, count) + (if e.source < count {
            1nat
        } else {
            0nat
        }),
        end_sum(edges.push(e), count) == end_sum(edges, count) + (if e.target < count {
            1nat
        } else {
            0nat
        }),
    decreases count,
{
    if count > 0 {
        lemma_sums_push(edges, e, count - 1);
        assert(edges.push(e).drop_last() == edges);
    }
}

proof fn lemma_no_edges(count: int)
    ensures
        start_sum(Seq::empty(), count) == 0,
        end_sum(Seq::empty(), count) == 0,
    decreases count,
{
    if count > 0 {
        lemma_no_edges(count - 1);
    }
}

proof fn lemma_sums(edges: Seq<Edge>, count: int)
    requires
        inside(edges, count),
    ensures
        start_sum(edges, count) == edges.len(),
        end_sum(edges, count) == edges.len(),
    decreases edges.len(),
{
    if edges.len() == 0 {
        assert(edges == Seq::<Edge>::empty());
        lemma_no_edges(count);
    } else {
        let rest = edges.drop_last();
        assert(inside(rest, count)) by {
            assert forall|k: int| 0 <= k < rest.len() implies (#[trigger] rest[k]).source < count
                && rest[k].target < count by {
                assert(rest[k] == edges[k]);
            }
        }
        lemma_sums(rest, count);
        lemma_sums_push(rest, edges.last(), count);
        assert(rest.push(edges.last()) == edges);
        assert(edges[edges.len() - 1].source < count);
    }
}

proof fn lemma_graph_sums(graph: Graph, edges: Seq<Edge>, count: int)
    requires
        graph.holds_edges(edges),
        0 <= count <= graph.nodes().len(),
    ensures
        started(graph, count) == start_sum(edges, count),
        ended(graph, count) == end_sum(edges, count),
    decreases count,
{
    if count > 0 {
        lemma_graph_sums(graph, edges, count - 1);
        assert(graph.edges_from(count - 1) == starting_at(edges, count - 1));
    }
}

/// A graph built from a snapshot holds each edge once under its source and once under its
/// target: the edges that start anywhere, and those that end anywhere, are as many as the
/// links between two sections that there are and the sections whose parent there is.
pub proof fn every_edge_starts_and_ends_once(graph: Graph, data: GraphData)
    requires
        graph.nodes().len() == data.sections.len(),
        graph.holds_edges(graph_edges(data)),
    ensures
        started(graph, graph.nodes().len() as int) == graph_edges(data).len(),
        ended(graph, graph.nodes().len() as int) == graph_edges(data).len(),
        graph_edges(data).len() == links_inside(section_uids(data.sections@), data.links@)
            + children(
            section_uids(data.sections@),
            data.sections@,
            data.sections@.len() as int,
        ),
{
    let uids = section_uids(data.sections@);
    let count = data.sections@.len() as int;
    assert(count == data.sections.len());
    assert(uids.len() == count);
    let written = link_edges(uids, data.links@);
    lemma_link_edges(uids, data.links@);
    lemma_parent_edges(uids, data.sections@, count, written);
    lemma_sums(graph_edges(data), count);
    lemma_graph_sums(graph, graph_edges(data), count);
}

/// How often a section stands among neighbours.
pub open spec fn meetings(list: Seq<(NodeIndex, Edge, bool)>, j: int) -> nat
    decreases list.len(),
{
    if list.len() == 0 {
        0
    } else {
        meetings(list.drop_last(), j) + (if list.last().0 == j {
            1nat
        } else {
            0nat
        })
    }
}

/// How often the edges between two sections, of whatever relation, stand in a list.
spec fn joining(edges: Seq<Edge>, source: int, target: int) -> nat {
    let between = |relation: RelationType|
        times(edges, Edge { source: source as usize, target: target as usize, relation });
    between(RelationType::Related) + between(RelationType::Outgoing) + between(
        RelationType::Ingoing,
    ) + between(RelationType::Contradicts) + between(RelationType::ExampleOf) + between(
        RelationType::Supersedes,
    ) + between(RelationType::Parent) + between(RelationType::Other)
}

proof fn lemma_joining_push(edges: Seq<Edge>, e: Edge, source: int, target: int)
    requires
        0 <= source <= usize::MAX,
        0 <= target <= usize::MAX,
    ensures
        joining(edges.push(e), source, target) == joining(edges, source, target) + (if e.source
            == source && e.target == target {
            1nat
        } else {
            0nat
        }),
{
    assert(edges.push(e).drop_last() == edges);
    assert(edges.push(e).last() == e);
    match e.relation {
        RelationType::Related => {},
        RelationType::Outgoing => {},
        RelationType::Ingoing => {},
        RelationType::Contradicts => {},
        RelationType::ExampleOf => {},
        RelationType::Supersedes => {},
        RelationType::Parent => {},
        RelationType::Other => {},
    }
}

proof fn lemma_meetings(out: Seq<Edge>, back: Seq<Edge>, i: int, j: int)
    requires
        0 <= i <= usize::MAX,
        0 <= j <= usize::MAX,
        forall|k: int| 0 <= k < out.len() ==> (#[trigger] out[k]).source == i,
        forall|k: int| 0 <= k < back.len() ==> (#[trigger] back[k]).target == i,
    ensures
        meetings(both_ways(out, back), j) == joining(out, i, j) + joining(back, j, i),
    decreases out.len() + back.len(),
{
    let list = both_ways(out, back);
    if back.len() > 0 {
        let rest = back.drop_last();
        assert forall|k: int| 0 <= k < rest.len() implies (#[trigger] rest[k]).target == i by {
            assert(rest[k] == back[k]);
        }
        lemma_meetings(out, rest, i, j);
        lemma_joining_push(rest, back.last(), j, i);
        assert(rest.push(back.last()) == back);
        assert(list.drop_last() == both_ways(out, rest));
        assert(back[back.len() - 1].target == i);
    } else if out.len() > 0 {
        let rest = out.drop_last();
        assert forall|k: int| 0 <= k < rest.len() implies (#[trigger] rest[k]).source == i by {
            assert(rest[k] == out[k]);
        }
        lemma_meetings(rest, back, i, j);
        lemma_joining_push(rest, out.last(), i, j);
        assert(rest.push(out.last()) == out);
        assert(list.drop_last() == both_ways(rest, back));
        assert(out[out.len() - 1].source == i);
    }
}

/// Neighbourhood is mutual: a section stands among the neighbours of another as often as the
/// other among its own, and has as many neighbours as its degree.
pub proof fn neighbours_meet_as_often_both_ways(graph: Graph, i: int, j: int)
    requires
        graph.well_formed(),
        0 <= i < graph.nodes().len(),
        0 <= j < graph.nodes().len(),
    ensures
        meetings(both_ways(graph.edges_from(i), graph.edges_to(i)), j) == meetings(
            both_ways(graph.edges_from(j), graph.edges_to(j)),
            i,
        ),
        both_ways(graph.edges_from(i), graph.edges_to(i)).len() == graph.edges_from(i).len()
            + graph.edges_to(i).len(),
{
    lemma_edges_join(graph, i);
    lemma_edges_join(graph, j);
    lemma_meetings(graph.edges_from(i), graph.edges_to(i), i, j);
    lemma_meetings(graph.edges_from(j), graph.edges_to(j), j, i);
    lemma_joining_agrees(graph, i, j);
    lemma_joining_agrees(graph, j, i);
}

proof fn lemma_joining_agrees(graph: Graph, i: int, j: int)
    requires
        graph.well_formed(),
        graph.nodes().len() <= usize::MAX,
        0 <= i < graph.nodes().len(),
        0 <= j < graph.nodes().len(),
    ensures
        joining(graph.edges_from(i), i, j) == joining(graph.edges_to(j), i, j),
{
    let source = i as usize;
    let target = j as usize;
    adjacency_holds_both_ways(graph, Edge { source, target, relation: RelationType::Related });
    adjacency_holds_both_ways(graph, Edge { source, target, relation: RelationType::Outgoing });
    adjacency_holds_both_ways(graph, Edge { source, target, relation: RelationType::Ingoing });
    adjacency_holds_both_ways(graph, Edge { source, target, relation: RelationType::Contradicts });
    adjacency_holds_both_ways(graph, Edge { source, target, relation: RelationType::ExampleOf });
    adjacency_holds_both_ways(graph, Edge { source, target, relation: RelationType::Supersedes });
    adjacency_holds_both_ways(graph, Edge { source, target, relation: RelationType::Parent });
    adjacency_holds_both_ways(graph, Edge { source, target, relation: RelationType::Other });
}

// ---------------------------------------------------------------------------
// Contradictions
// ---------------------------------------------------------------------------

/// Whether the first pair comes before the second.
pub open spec fn pair_before(a: (usize, usize), b: (usize, usize)) -> bool {
    a.0 < b.0 || a.0 == b.0 && a.1 < b.1
}

/// The two ends of an edge, the lower first.
pub open spec fn pair_of(e: Edge) -> (usize, usize) {
    if e.source <= e.target {
        (e.source, e.target)
    } else {
        (e.target, e.source)
    }
}

/// Whether the list is in order and holds no pair twice.
pub open spec fn pairs_sorted(pairs: Seq<(usize, usize)>) -> bool {
    forall|i: int, j: int|
        0 <= i < j < pairs.len() ==> pair_before(#[trigger] pairs[i], #[trigger] pairs[j])
}

fn add_pair(pairs: &mut Vec<(usize, usize)>, pair: (usize, usize))
    requires
        pairs_sorted(old(pairs)@),
    ensures
        pairs_sorted(final(pairs)@),
        forall|p: (usize, usize)|
            #[trigger] final(pairs)@.contains(p) <==> old(pairs)@.contains(p) || p == pair,
{
    let ghost before = pairs@;
    let mut i: usize = 0;
    while i < pairs.len() && (pairs[i].0 < pair.0 || pairs[i].0 == pair.0 && pairs[i].1 < pair.1)
        invariant
            0 <= i <= pairs.len(),
            pairs@ == before,
            pairs_sorted(before),
            forall|k: int| 0 <= k < i ==> pair_before(#[trigger] before[k], pair),
        decreases pairs.len() - i,
    {
        i += 1;
    }
    if i < pairs.len() && pairs[i].0 == pair.0 && pairs[i].1 == pair.1 {
        assert(before[i as int] == pair);
        return ;
    }
    pairs.insert(i, pair);
    let ghost after = before.insert(i as int, pair);
    assert(pairs@ == after);
    assert forall|a: int, b: int| 0 <= a < b < after.len() implies pair_before(
        #[trigger] after[a],
        #[trigger] after[b],
    ) by {
        if a < i && b > i {
            assert(pair_before(before[a], before[b - 1]));
        } else if a == i && b > i {
            assert(before[b - 1] == before[i as int] || pair_before(
                before[i as int],
                before[b - 1],
            ));
        } else if a > i {
            assert(pair_before(before[a - 1], before[b - 1]));
        } else if b < i {
            assert(pair_before(before[a], before[b]));
        }
    }
    assert forall|p: (usize, usize)| after.contains(p) <==> before.contains(p) || p == pair by {
        if before.contains(p) {
            let k = choose|k: int| 0 <= k < before.len() && before[k] == p;
            if k < i {
                assert(after[k] == p);
            } else {
                assert(after[k + 1] == p);
            }
        }
        if p == pair {
            assert(after[i as int] == p);
        }
        if after.contains(p) {
            let k = choose|k: int| 0 <= k < after.len() && after[k] == p;
            if k < i {
                assert(before[k] == p);
            } else if k > i {
                assert(before[k - 1] == p);
            }
        }
    }
}

impl Graph {
    /// Whether some edge from one of the first sections says that the pair disagrees.
    pub open spec fn disagree_before(self, count: int, p: (usize, usize)) -> bool {
        exists|i: int, k: int|
            0 <= i < count && 0 <= k < self.edges_from(i).len() && says_disagree(
                #[trigger] self.edges_from(i)[k],
                p,
            )
    }

    /// Pairs joined by `contradicts`: sections that the author has said disagree.
    ///
    /// Each pair is reported once, lowest index first, however many edges join them.
    pub fn contradictions(&self) -> (r: Vec<(NodeIndex, NodeIndex)>)
        requires
            self.well_formed(),
        ensures
            pairs_sorted(r@),
            forall|p: (usize, usize)|
                #[trigger] r@.contains(p) <==> self.disagree_before(self.nodes().len() as int, p),
    {
        let mut pairs: Vec<(usize, usize)> = Vec::new();
        let mut i: usize = 0;
        while i < self.outgoing.len()
            invariant
                0 <= i <= self.outgoing.len(),
                self.outgoing.len() == self.nodes().len(),
                pairs_sorted(pairs@),
                forall|p: (usize, usize)|
                    #[trigger] pairs@.contains(p) <==> self.disagree_before(i as int, p),
            decreases self.outgoing.len() - i,
        {
            let ghost outer = pairs@;
            let mut k: usize = 0;
            while k < self.outgoing[i].len()
                invariant
                    0 <= i < self.outgoing.len(),
                    0 <= k <= self.outgoing@[i as int].len(),
                    pairs_sorted(pairs@),
                    forall|p: (usize, usize)|
                        #[trigger] outer.contains(p) <==> self.disagree_before(i as int, p),
                    forall|p: (usize, usize)|
                        #[trigger] pairs@.contains(p) <==> outer.contains(p) || disagree_in(
                            self.edges_from(i as int),
                            k as int,
                            p,
                        ),
                decreases self.outgoing@[i as int].len() - k,
            {
                let edge = self.outgoing[i][k];
                let ghost inner = pairs@;
                assert(edge == self.edges_from(i as int)[k as int]);
                if edge.relation == RelationType::Contradicts {
                    let pair = if edge.source <= edge.target {
                        (edge.source, edge.target)
                    } else {
                        (edge.target, edge.source)
                    };
                    add_pair(&mut pairs, pair);
                }
                assert forall|p: (usize, usize)|
                    #[trigger] pairs@.contains(p) <==> outer.contains(p) || disagree_in(
                        self.edges_from(i as int),
                        k + 1,
                        p,
                    ) by {
                    lemma_disagree_step(self.edges_from(i as int), k as int, p);
                    assert(inner.contains(p) <==> outer.contains(p) || disagree_in(
                        self.edges_from(i as int),
                        k as int,
                        p,
                    ));
                    assert(says_disagree(edge, p) <==> edge.relation == RelationType::Contradicts
                        && pair_of(edge) == p);
                    if edge.relation == RelationType::Contradicts {
                        assert(pairs@.contains(p) <==> inner.contains(p) || p == pair_of(edge));
                    } else {
                        assert(pairs@ == inner);
                    }
                }
                k += 1;
            }
            assert forall|p: (usize, usize)|
                #[trigger] pairs@.contains(p) <==> self.disagree_before(i + 1, p) by {
                if disagree_in(
                    self.edges_from(i as int),
                    self.edges_from(i as int).len() as int,
                    p,
                ) {
                    let b = choose|b: int|
                        0 <= b < self.edges_from(i as int).len() && says_disagree(
                            #[trigger] self.edges_from(i as int)[b],
                            p,
                        );
                    assert(says_disagree(self.edges_from(i as int)[b], p));
                }
                if self.disagree_before(i as int, p) {
                    let (a, b) = choose|a: int, b: int|
                        0 <= a < i && 0 <= b < self.edges_from(a).len() && says_disagree(
                            #[trigger] self.edges_from(a)[b],
                            p,
                        );
                    assert(says_disagree(self.edges_from(a)[b], p));
                }
                if self.disagree_before(i + 1, p) {
                    let (a, b) = choose|a: int, b: int|
                        0 <= a < i + 1 && 0 <= b < self.edges_from(a).len() && says_disagree(
                            #[trigger] self.edges_from(a)[b],
                            p,
                        );
                    if a < i {
                        assert(self.disagree_before(i as int, p));
                    } else {
                        assert(says_disagree(self.edges_from(i as int)[b], p));
                    }
                }
            }
            i += 1;
        }
        pairs
    }
}

/// Whether an edge says that the pair disagrees.
pub open spec fn says_disagree(e: Edge, p: (usize, usize)) -> bool {
    e.relation == RelationType::Contradicts && pair_of(e) == p
}

/// Whether one of the first edges says that the pair disagrees.
pub open spec fn disagree_in(edges: Seq<Edge>, count: int, p: (usize, usize)) -> bool {
    exists|j: int| 0 <= j < count && says_disagree(#[trigger] edges[j], p)
}

proof fn lemma_disagree_step(edges: Seq<Edge>, k: int, p: (usize, usize))
    requires
        0 <= k < edges.len(),
    ensures
        disagree_in(edges, k + 1, p) <==> disagree_in(edges, k, p) || says_disagree(edges[k], p),
{
    if disagree_in(edges, k, p) {
        let j = choose|j: int| 0 <= j < k && says_disagree(#[trigger] edges[j], p);
        assert(says_disagree(edges[j], p));
    }
}

/// Two sections disagree exactly when an edge between them, whichever way it points, says so;
/// no other relation does. A pair names the lower section first.
pub proof fn only_contradicts_says_disagree(graph: Graph, a: usize, b: usize)
    requires
        graph.well_formed(),
    ensures
        graph.disagree_before(graph.nodes().len() as int, (a, b)) <==> {
            &&& a <= b < graph.nodes().len()
            &&& {
                ||| graph.edges_from(a as int).contains(
                    Edge { source: a, target: b, relation: RelationType::Contradicts },
                )
                ||| graph.edges_from(b as int).contains(
                    Edge { source: b, target: a, relation: RelationType::Contradicts },
                )
            }
        },
{
    let n = graph.nodes().len() as int;
    let p = (a, b);
    let ab = Edge { source: a, target: b, relation: RelationType::Contradicts };
    let ba = Edge { source: b, target: a, relation: RelationType::Contradicts };
    if graph.disagree_before(n, p) {
        let (i, k) = choose|i: int, k: int|
            0 <= i < n && 0 <= k < graph.edges_from(i).len() && says_disagree(
                #[trigger] graph.edges_from(i)[k],
                p,
            );
        lemma_edges_join(graph, i);
        let e = graph.edges_from(i)[k];
        assert(graph.edges_from(i).contains(e));
        assert(e == ab || e == ba);
    }
    if a <= b < n {
        if graph.edges_from(a as int).contains(ab) {
            let k = choose|k: int|
                0 <= k < graph.edges_from(a as int).len() && graph.edges_from(a as int)[k] == ab;
            assert(says_disagree(graph.edges_from(a as int)[k], p));
        }
        if graph.edges_from(b as int).contains(ba) {
            let k = choose|k: int|
                0 <= k < graph.edges_from(b as int).len() && graph.edges_from(b as int)[k] == ba;
            assert(says_disagree(graph.edges_from(b as int)[k], p));
        }
    }
}

/// Pairs that are in order come once each, by their first section and then by their second.
pub proof fn pairs_in_order_come_once(pairs: Seq<(usize, usize)>, i: int, j: int)
    requires
        pairs_sorted(pairs),
        0 <= i < j < pairs.len(),
    ensures
        pairs[i].0 < pairs[j].0 || pairs[i].0 == pairs[j].0 && pairs[i].1 < pairs[j].1,
{
}

/// An edge is made of a link exactly when both of its ends are sections: from the section
/// that is named first to the one that is named second, in the relation that the link says.
/// Of sections with the same uid the last is meant.
pub proof fn a_link_joins_the_sections_it_names(uids: Seq<Seq<char>>, link: GraphLink)
    requires
        uids.len() <= usize::MAX,
    ensures
        link_edge(uids, link) is Some <==> uids.contains(link.source@) && uids.contains(
            link.target@,
        ),
        link_edge(uids, link) matches Some(e) ==> {
            &&& e.source < uids.len() && e.target < uids.len()
            &&& uids[e.source as int] == link.source@
            &&& uids[e.target as int] == link.target@
            &&& e.relation == relation_named(link.relation_type@)
            &&& forall|k: int|
                e.source < k < uids.len() ==> #[trigger] uids[k] != link.source@
            &&& forall|k: int|
                e.target < k < uids.len() ==> #[trigger] uids[k] != link.target@
        },
{
    lemma_index_in(uids, link.source@);
    lemma_index_in(uids, link.target@);
    lemma_last_index(uids, link.source@);
    lemma_last_index(uids, link.target@);
}

proof fn lemma_last_index(uids: Seq<Seq<char>>, uid: Seq<char>)
    ensures
        index_in(uids, uid) matches Some(i) ==> uids[i] == uid && forall|k: int|
            i < k < uids.len() ==> #[trigger] uids[k] != uid,
    decreases uids.len(),
{
    if uids.len() > 0 && uids.last() != uid {
        let rest = uids.drop_last();
        lemma_last_index(rest, uid);
        lemma_index_in(rest, uid);
        if let Some(i) = index_in(rest, uid) {
            assert forall|k: int| i < k < uids.len() implies #[trigger] uids[k] != uid by {
                if k < rest.len() {
                    assert(rest[k] == uids[k]);
                }
            }
        }
    }
}

/// A section has an edge from its parent exactly when its parent is a section, and that edge
/// is structural.
pub proof fn a_parent_is_joined_to_its_child(
    uids: Seq<Seq<char>>,
    parent: Option<Seq<char>>,
    child: int,
)
    requires
        uids.len() <= usize::MAX,
        0 <= child <= usize::MAX,
    ensures
        parent_edge(uids, parent, child) is Some <==> parent is Some && uids.contains(parent->0),
        parent_edge(uids, parent, child) matches Some(e) ==> uids[e.source as int] == parent->0
            && e.target == child && e.relation == RelationType::Parent,
{
    if parent is Some {
        lemma_index_in(uids, parent->0);
        lemma_last_index(uids, parent->0);
    }
}

} // verus!
