use esbuild::doc::Doc;
use esbuild::edge::Edge;
use esbuild::errors::EBError;
use esbuild::graph::CachedGraph;
use esbuild::node::Node;

fn node(label: &str, id: &str) -> Node {
    Node::new(label.to_string(), id.to_string(), Doc::new(), Doc::new(), Vec::new())
}

fn edge(src: &str, dst: &str) -> Edge {
    Edge::new("e".to_string(), src.to_string(), dst.to_string())
}

fn ids(nodes: &[&Node]) -> Vec<String> {
    nodes.iter().map(|n| n.id.clone()).collect()
}

fn s(x: &str) -> String {
    x.to_string()
}

/// case C1 — sample S1 — portion P1 — analytes A1, A2.
fn sample_graph() -> CachedGraph {
    let mut g = CachedGraph::new();
    g.add_node(node("case", "C1"));
    g.add_node(node("sample", "S1"));
    g.add_node(node("portion", "P1"));
    g.add_node(node("analyte", "A1"));
    g.add_node(node("analyte", "A2"));
    g.add_edge(edge("C1", "S1")).unwrap();
    g.add_edge(edge("S1", "P1")).unwrap();
    g.add_edge(edge("P1", "A1")).unwrap();
    g.add_edge(edge("P1", "A2")).unwrap();
    g
}

#[test]
fn add_edge_mirrors_both_directions() {
    let g = sample_graph();
    let forward = g.get_edges(&s("C1"), &s("S1")).unwrap();
    let backward = g.get_edges(&s("S1"), &s("C1")).unwrap();
    assert_eq!(forward.len(), 1);
    assert_eq!(backward.len(), 1);
    assert_eq!(forward[0].src_id, "C1");
    assert_eq!(backward[0].src_id, "C1");
    assert_eq!(backward[0].dst_id, "S1");
    assert!(g.get_edges(&s("C1"), &s("P1")).is_none());
}

#[test]
fn add_edge_missing_endpoint_is_referential_error() {
    let mut g = sample_graph();
    match g.add_edge(edge("C1", "nowhere")) {
        Err(EBError::ReferentialError(_)) => {},
        other => panic!("unexpected: {:?}", other),
    }
    match g.add_edge(edge("nowhere", "C1")) {
        Err(EBError::ReferentialError(_)) => {},
        other => panic!("unexpected: {:?}", other),
    }
    assert!(g.get_edges(&s("C1"), &s("nowhere")).is_none());
    assert_eq!(g.neighbors(&s("C1")).len(), 1);
}

#[test]
fn edges_accumulate_between_same_pair() {
    let mut g = sample_graph();
    g.add_edge(Edge::new(s("other"), s("S1"), s("C1"))).unwrap();
    let edges = g.get_edges(&s("C1"), &s("S1")).unwrap();
    assert_eq!(edges.len(), 2);
    assert_eq!(edges[0].label, "e");
    assert_eq!(edges[1].label, "other");
    assert_eq!(g.get_edges(&s("S1"), &s("C1")).unwrap().len(), 2);
    assert_eq!(ids(&g.neighbors(&s("C1"))), vec!["S1"]);
}

#[test]
fn self_loop_is_listed_twice() {
    let mut g = sample_graph();
    g.add_edge(edge("A1", "A1")).unwrap();
    assert_eq!(g.get_edges(&s("A1"), &s("A1")).unwrap().len(), 2);
}

#[test]
fn remove_node_twice_same_as_once() {
    let mut g = sample_graph();
    let removed = g.remove_node(&s("S1")).unwrap();
    assert_eq!(removed.id, "S1");
    assert!(g.get_node(&s("S1")).is_none());
    assert!(g.get_edges(&s("C1"), &s("S1")).is_none());
    assert!(g.get_edges(&s("P1"), &s("S1")).is_none());
    assert!(g.neighbors(&s("C1")).is_empty());
    assert_eq!(ids(&g.neighbors(&s("P1"))), vec!["A1", "A2"]);
    let count = g.nodes.len();
    assert!(g.remove_node(&s("S1")).is_none());
    assert_eq!(g.nodes.len(), count);
    assert_eq!(ids(&g.neighbors(&s("P1"))), vec!["A1", "A2"]);
    assert!(g.get_node(&s("A2")).is_some());
}

#[test]
fn add_node_same_id_keeps_one() {
    let mut g = CachedGraph::new();
    g.add_node(node("sample", "X"));
    g.add_node(node("portion", "X"));
    assert_eq!(g.nodes.len(), 1);
    assert_eq!(g.get_node(&s("X")).unwrap().label, "portion");
}

#[test]
fn get_node_absent_is_none() {
    let g = sample_graph();
    assert!(g.get_node(&s("missing")).is_none());
    assert!(g.neighbors(&s("missing")).is_empty());
}

#[test]
fn nodes_labeled_filters_in_node_order() {
    let g = sample_graph();
    let found = g.nodes_labeled(&vec![s("analyte"), s("case")]);
    assert_eq!(ids(&found), vec!["C1", "A1", "A2"]);
    assert!(g.nodes_labeled(&Vec::new()).is_empty());
}

#[test]
fn neighbors_labeled_filters() {
    let g = sample_graph();
    assert_eq!(ids(&g.neighbors(&s("P1"))), vec!["S1", "A1", "A2"]);
    assert_eq!(ids(&g.neighbors_labeled(&s("P1"), &vec![s("analyte")])), vec!["A1", "A2"]);
}

#[test]
fn walk_path_scenario() {
    let g = sample_graph();
    let path = vec![s("sample"), s("portion"), s("analyte")];
    assert_eq!(ids(&g.walk_path(&s("C1"), &path, false)), vec!["A1", "A2"]);
    let whole = ids(&g.walk_path(&s("C1"), &path, true));
    assert_eq!(whole, vec!["A1", "A2", "P1", "S1"]);
}

#[test]
fn walk_path_repeatable() {
    let g = sample_graph();
    let path = vec![s("sample"), s("portion"), s("analyte")];
    let first = ids(&g.walk_path(&s("C1"), &path, true));
    let second = ids(&g.walk_path(&s("C1"), &path, true));
    assert_eq!(first, second);
}

#[test]
fn walk_path_empty_path_is_empty() {
    let g = sample_graph();
    assert!(g.walk_path(&s("C1"), &[], true).is_empty());
    assert!(g.walk_path(&s("C1"), &[], false).is_empty());
}

#[test]
fn walk_path_mismatched_label_is_empty() {
    let g = sample_graph();
    assert!(g.walk_path(&s("C1"), &[s("portion")], false).is_empty());
}

#[test]
fn walk_paths_keeps_each_node_once() {
    let g = sample_graph();
    let paths = vec![
        vec![s("sample"), s("portion")],
        vec![s("sample"), s("portion"), s("analyte")],
    ];
    assert_eq!(ids(&g.walk_paths(&s("C1"), &paths, true)), vec!["P1", "S1", "A1", "A2"]);
    assert_eq!(ids(&g.walk_paths(&s("C1"), &paths, false)), vec!["P1", "A1", "A2"]);
}

#[test]
fn from_tables_loads_nodes_then_edges() {
    let nodes = vec![node("case", "C1"), node("sample", "S1")];
    let g = CachedGraph::from_tables(nodes, vec![edge("C1", "S1")]).unwrap();
    assert_eq!(ids(&g.neighbors(&s("S1"))), vec!["C1"]);
    let nodes = vec![node("case", "C1")];
    match CachedGraph::from_tables(nodes, vec![edge("C1", "S9")]) {
        Err(EBError::ReferentialError(_)) => {},
        _ => panic!("expected a referential error"),
    }
}
