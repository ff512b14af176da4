//! The graph of sections: adjacency, walks, communities and contradictions.

use std::collections::HashSet;

use yalive::communities::find_communities;
use yalive::graph::{Graph, RelationType};
use yalive::model::{GraphData, GraphLink, GraphNote, GraphSection};

fn section(uid: &str) -> GraphSection {
    GraphSection {
        uid: uid.to_string(),
        note_id: "note".to_string(),
        heading: uid.to_uppercase(),
        parent_uid: None,
        level: 1,
        start_line: 1,
    }
}

fn link(source: &str, target: &str, relation: &str) -> GraphLink {
    GraphLink {
        source: source.to_string(),
        target: target.to_string(),
        relation_type: relation.to_string(),
    }
}

/// `a → b → c`, plus `d` joined to `a` by `contradicts`, plus an isolated `e`.
fn fixture() -> GraphData {
    GraphData {
        notes: vec![GraphNote {
            id: "note".to_string(),
            title: "Note".to_string(),
            topic: None,
            path: "note.md".to_string(),
        }],
        sections: ["a", "b", "c", "d", "e"].map(section).into(),
        links: vec![
            link("a", "b", "related"),
            link("b", "c", "related"),
            link("d", "a", "contradicts"),
            link("a", "z", "related"),
        ],
    }
}

#[test]
fn adjacency_is_built_both_ways_and_drops_broken_links() {
    let graph = Graph::new(&fixture());
    let a = graph.index_of("a").unwrap();
    let b = graph.index_of("b").unwrap();

    assert_eq!(graph.len(), 5, "the dangling target must not become a node");
    assert_eq!(graph.outgoing(a).len(), 1, "a → b only; a → z is dropped");
    assert_eq!(graph.incoming(a).len(), 1, "d → a");
    assert_eq!(graph.degree(b), 2, "a → b and b → c");
}

#[test]
fn expansion_reaches_backwards_as_well_as_forwards() {
    let graph = Graph::new(&fixture());
    let a = graph.index_of("a").unwrap();

    let reached = graph.walk(&vec![a], 2, 60);
    let uids: HashSet<&str> =
        reached.iter().map(|hit| graph.node(hit.index).uid.as_str()).collect();

    assert!(uids.contains("b"), "one hop forward");
    assert!(uids.contains("c"), "two hops forward");
    assert!(uids.contains("d"), "one hop backwards along contradicts");
    assert!(!uids.contains("e"), "e is connected to nothing");
}

#[test]
fn expansion_stops_at_max_hops() {
    let graph = Graph::new(&fixture());
    let a = graph.index_of("a").unwrap();

    let reached = graph.walk(&vec![a], 1, 60);
    let uids: HashSet<&str> =
        reached.iter().map(|hit| graph.node(hit.index).uid.as_str()).collect();

    assert!(uids.contains("b"));
    assert!(!uids.contains("c"), "c is two hops away");
}

#[test]
fn expansion_records_how_each_section_was_reached() {
    let graph = Graph::new(&fixture());
    let a = graph.index_of("a").unwrap();
    let d = graph.index_of("d").unwrap();

    let reached = graph.walk(&vec![a], 2, 60);
    let hit = reached.iter().find(|hit| hit.index == d).unwrap();

    assert_eq!(hit.hops, 1);
    assert!(hit.backwards, "d → a was followed against its direction");
    assert_eq!(hit.via.unwrap().relation, RelationType::Contradicts);
}

#[test]
fn a_walk_visits_nearer_sections_first_and_stops_when_full() {
    let graph = Graph::new(&fixture());
    let a = graph.index_of("a").unwrap();
    let hops: Vec<usize> = graph.walk(&vec![a, a, 99], 2, 60).iter().map(|s| s.hops).collect();
    assert_eq!(hops, [0, 1, 1, 2]);
    assert_eq!(graph.walk(&vec![a], 2, 2).len(), 2);
}

#[test]
fn an_unconnected_section_gets_a_community_of_its_own() {
    let graph = Graph::new(&fixture());
    let communities = graph.communities();
    let of = |uid: &str| communities[graph.index_of(uid).unwrap()];

    for uid in ["a", "b", "c", "d"] {
        assert_ne!(of(uid), of("e"), "{uid} shares a community with an island");
    }
}

#[test]
fn two_clusters_joined_by_one_weak_edge_stay_apart() {
    let data = GraphData {
        notes: Vec::new(),
        sections: ["a1", "a2", "a3", "b1", "b2", "b3"].map(section).into(),
        links: vec![
            link("a1", "a2", "related"),
            link("a2", "a3", "related"),
            link("a3", "a1", "related"),
            link("b1", "b2", "related"),
            link("b2", "b3", "related"),
            link("b3", "b1", "related"),
            link("a1", "b1", "related"),
        ],
    };

    let graph = Graph::new(&data);
    let communities = graph.communities();
    let of = |uid: &str| communities[graph.index_of(uid).unwrap()];

    assert_eq!(of("a2"), of("a3"), "the first triangle holds together");
    assert_eq!(of("b2"), of("b3"), "so does the second");
    assert_ne!(
        of("a2"),
        of("b2"),
        "one bridge must not fuse two clusters into one community"
    );
}

#[test]
fn communities_are_deterministic() {
    let graph = Graph::new(&fixture());
    assert_eq!(graph.communities(), graph.communities());
}

#[test]
fn communities_are_numbered_from_the_first_section() {
    let pairs: Vec<Vec<(usize, u64)>> =
        vec![vec![(1, 60)], vec![(0, 60)], vec![(3, 60)], vec![(2, 60)], vec![]];
    assert_eq!(find_communities(pairs), [0, 0, 1, 1, 2]);
}

#[test]
fn contradictions_are_reported_once_per_pair() {
    let graph = Graph::new(&fixture());
    let pairs = graph.contradictions();

    assert_eq!(pairs.len(), 1);
    let (left, right) = pairs[0];
    let uids = [graph.node(left).uid.as_str(), graph.node(right).uid.as_str()];
    assert!(uids.contains(&"a") && uids.contains(&"d"));
}

#[test]
fn every_edge_starts_once_and_ends_once() {
    let mut data = fixture();
    data.sections[1].parent_uid = Some("a".to_string());
    data.sections[2].parent_uid = Some("gone".to_string());
    let graph = Graph::new(&data);
    let started: usize = (0..graph.len()).map(|i| graph.outgoing(i).len()).sum();
    let ended: usize = (0..graph.len()).map(|i| graph.incoming(i).len()).sum();
    assert_eq!(started, 4, "three links join two sections, and one section has its parent");
    assert_eq!(ended, 4);
}

#[test]
fn neighbours_meet_as_often_from_either_side() {
    let mut data = fixture();
    data.links.push(link("b", "a", "supersedes"));
    data.links.push(link("c", "c", "related"));
    data.sections[1].parent_uid = Some("a".to_string());
    let graph = Graph::new(&data);
    let meetings =
        |i: usize, j: usize| graph.neighbours(i).iter().filter(|entry| entry.0 == j).count();
    for i in 0..graph.len() {
        assert_eq!(graph.neighbours(i).len(), graph.degree(i));
        for j in 0..graph.len() {
            assert_eq!(meetings(i, j), meetings(j, i));
        }
    }
    assert_eq!(meetings(0, 1), 3);
    assert_eq!(meetings(2, 2), 2);
}

#[test]
fn an_empty_graph_has_nothing_in_it() {
    let graph =
        Graph::new(&GraphData { notes: Vec::new(), sections: Vec::new(), links: Vec::new() });

    assert!(graph.is_empty());
    assert!(graph.sections().is_empty());
    assert!(graph.communities().is_empty());
    assert!(graph.walk(&vec![], 2, 60).is_empty());
}

#[test]
fn a_relation_is_read_from_its_word() {
    for (word, relation, weight) in [
        ("related", RelationType::Related, 60),
        ("outgoing", RelationType::Outgoing, 65),
        ("ingoing", RelationType::Ingoing, 70),
        ("contradicts", RelationType::Contradicts, 100),
        ("example-of", RelationType::ExampleOf, 75),
        ("supersedes", RelationType::Supersedes, 90),
        ("parent", RelationType::Parent, 30),
    ] {
        assert_eq!(RelationType::parse(word), relation, "{word}");
        assert_eq!(relation.as_str(), word);
        assert_eq!(relation.weight_hundredths(), weight, "{word}");
    }
    assert_eq!(RelationType::parse("unheard of"), RelationType::Other);
    assert_eq!(RelationType::Other.weight_hundredths(), 50);
}

#[test]
fn neighbours_are_seen_from_both_ends() {
    let graph = Graph::new(&fixture());
    let a = graph.index_of("a").unwrap();
    let near: Vec<(String, bool)> = graph
        .neighbours(a)
        .into_iter()
        .map(|(index, _, backwards)| (graph.node(index).uid.clone(), backwards))
        .collect();
    assert_eq!(near, [("b".to_string(), false), ("d".to_string(), true)]);
}

#[test]
fn hops_are_the_shortest_distance() {
    let mut data = fixture();
    data.links.push(link("c", "d", "related"));
    let graph = Graph::new(&data);
    let at = |uid: &str| graph.index_of(uid).unwrap();
    let walk = graph.walk(&vec![at("a")], 9, 60);
    let hops = |uid: &str| walk.iter().find(|s| s.index == at(uid)).map(|s| s.hops);
    assert_eq!(hops("a"), Some(0));
    assert_eq!(hops("b"), Some(1));
    assert_eq!(hops("d"), Some(1));
    assert_eq!(hops("c"), Some(2), "by b or by d, not by both");
    assert_eq!(hops("e"), None, "no path leads there");
}

#[test]
fn sections_that_no_path_joins_are_in_different_communities() {
    let graph = Graph::new(&fixture());
    let communities = graph.communities();
    assert_eq!(communities.len(), graph.len());
    assert_eq!(communities[0], 0);
    let e = graph.index_of("e").unwrap();
    for other in 0..graph.len() {
        assert_eq!(communities[other] == communities[e], other == e);
    }
}

#[test]
fn an_edge_stands_under_both_of_its_ends() {
    let mut data = fixture();
    data.links.push(link("a", "b", "related"));
    let graph = Graph::new(&data);
    let (a, b) = (graph.index_of("a").unwrap(), graph.index_of("b").unwrap());
    let out = graph.outgoing(a).iter().filter(|e| e.target == b).count();
    let back = graph.incoming(b).iter().filter(|e| e.source == a).count();
    assert_eq!((out, back), (2, 2));
}
