use esbuild::builders::{
    case_type_tree, denormalize_tree, file_type_tree, get_base_doc, is_prop_hidden,
    sample_type_tree, ActiveBuilder, Builder, Correlation, LegacyBuilder, NodeTree, Options,
    TypeTree,
};
use esbuild::datamodel::{Datamodel, PropertyType};
use esbuild::doc::{Doc, DocValue};
use esbuild::edge::Edge;
use esbuild::graph::CachedGraph;
use esbuild::node::{Node, NodeCategory, NodeType};

fn s(x: &str) -> String {
    x.to_string()
}

fn node_type(label: &str, props: &[&str], category: NodeCategory) -> NodeType {
    NodeType {
        label: s(label),
        props: props.iter().map(|p| (s(p), PropertyType::String)).collect(),
        category,
        links: Vec::new(),
        backrefs: Vec::new(),
    }
}

fn json(x: &str) -> DocValue {
    DocValue::Json(serde_json::Value::String(s(x)))
}

fn props(entries: &[(&str, &str)]) -> Doc {
    let mut d = Doc::new();
    for (k, v) in entries {
        d.insert(s(k), json(v));
    }
    d
}

fn keys(d: &Doc) -> Vec<String> {
    d.entries.iter().map(|(k, _)| k.clone()).collect()
}

fn text(v: Option<&DocValue>) -> String {
    match v {
        Some(DocValue::Text(t)) => t.clone(),
        other => panic!("not a text value: {:?}", other),
    }
}

fn options() -> Options {
    let dm = Datamodel::from_node_types(vec![
        node_type("sample", &["project_id", "tissue"], NodeCategory::Biospecimen),
        node_type("aligned_reads", &[], NodeCategory::Analysis),
        node_type("project", &["project_id", "name"], NodeCategory::Administrative),
    ])
    .unwrap();
    Options::legacy_defaults(dm)
}

#[test]
fn base_doc_non_project() {
    let opts = options();
    let n = Node::new(s("sample"), s("S1"), props(&[("project_id", "P"), ("tissue", "lung")]), Doc::new(), Vec::new());
    let doc = get_base_doc(&opts, &n);
    assert_eq!(keys(&doc), vec!["tissue", "sample_id"]);
    match doc.get("tissue") {
        Some(DocValue::Json(serde_json::Value::String(v))) => assert_eq!(v, "lung"),
        other => panic!("unexpected: {:?}", other),
    }
    assert_eq!(text(doc.get("sample_id")), "S1");
    assert!(!doc.contains_key("project_id"));
}

#[test]
fn base_doc_analysis() {
    let opts = options();
    let n = Node::new(s("aligned_reads"), s("A7"), Doc::new(), Doc::new(), Vec::new());
    let doc = get_base_doc(&opts, &n);
    assert_eq!(keys(&doc), vec!["analysis_id"]);
    assert_eq!(text(doc.get("analysis_id")), "A7");
}

#[test]
fn base_doc_missing_property_is_null() {
    let opts = options();
    let n = Node::new(s("sample"), s("S2"), Doc::new(), Doc::new(), Vec::new());
    let doc = get_base_doc(&opts, &n);
    assert!(matches!(doc.get("tissue"), Some(DocValue::Null)));
}

#[test]
fn base_doc_project_shows_project_id() {
    let opts = options();
    let n = Node::new(s("project"), s("PR1"), props(&[("project_id", "PR1"), ("name", "N")]), Doc::new(), Vec::new());
    let doc = get_base_doc(&opts, &n);
    assert_eq!(keys(&doc), vec!["project_id", "name"]);
    assert_eq!(text(doc.get("project_id")), "PR1");
    assert!(is_prop_hidden(&Node::new(s("case"), s("C"), Doc::new(), Doc::new(), Vec::new()), "project_id"));
    assert!(!is_prop_hidden(&n, "project_id"));
    assert!(!is_prop_hidden(&Node::new(s("case"), s("C"), Doc::new(), Doc::new(), Vec::new()), "name"));
}

fn case_graph() -> CachedGraph {
    let mut g = CachedGraph::new();
    for (label, id) in [("case", "C1"), ("sample", "S1"), ("portion", "P1")] {
        g.add_node(Node::new(s(label), s(id), Doc::new(), Doc::new(), Vec::new()));
    }
    g.add_edge(Edge::new(s("e"), s("S1"), s("C1"))).unwrap();
    g.add_edge(Edge::new(s("e"), s("P1"), s("S1"))).unwrap();
    g
}

fn bare_options() -> Options {
    let dm = Datamodel::from_node_types(vec![
        node_type("case", &[], NodeCategory::Administrative),
        node_type("sample", &[], NodeCategory::Biospecimen),
        node_type("portion", &[], NodeCategory::Biospecimen),
    ])
    .unwrap();
    Options::active_defaults(dm)
}

fn list(v: Option<&DocValue>) -> &Vec<Doc> {
    match v {
        Some(DocValue::List(l)) => l,
        other => panic!("not a list: {:?}", other),
    }
}

#[test]
fn denormalize_case() {
    let g = case_graph();
    let opts = bare_options();
    let tt = TypeTree::new("case", "cases", Correlation::ToMany).child(
        TypeTree::new("sample", "samples", Correlation::ToMany)
            .child(TypeTree::new("portion", "portions", Correlation::ToMany)),
    );
    let c1 = g.get_node(&s("C1")).unwrap();
    let tree = NodeTree::construct(&g, &tt, c1);
    let flat: Vec<String> = tree.flatten().iter().map(|n| n.id.clone()).collect();
    assert_eq!(flat, vec!["C1", "S1", "P1"]);
    let doc = denormalize_tree(&opts, &g, &tree);
    assert_eq!(keys(&doc), vec!["case_id", "samples"]);
    assert_eq!(text(doc.get("case_id")), "C1");
    let samples = list(doc.get("samples"));
    assert_eq!(samples.len(), 1);
    assert_eq!(keys(&samples[0]), vec!["sample_id", "portions"]);
    assert_eq!(text(samples[0].get("sample_id")), "S1");
    let portions = list(samples[0].get("portions"));
    assert_eq!(portions.len(), 1);
    assert_eq!(keys(&portions[0]), vec!["portion_id"]);
    assert_eq!(text(portions[0].get("portion_id")), "P1");
}

#[test]
fn denormalize_to_one_is_nested() {
    let g = case_graph();
    let opts = bare_options();
    let tt = TypeTree::new("sample", "samples", Correlation::ToMany)
        .child(TypeTree::new("case", "case", Correlation::ToOne));
    let s1 = g.get_node(&s("S1")).unwrap();
    let tree = NodeTree::construct(&g, &tt, s1);
    let doc = denormalize_tree(&opts, &g, &tree);
    match doc.get("case") {
        Some(DocValue::Nested(d)) => assert_eq!(text(d.get("case_id")), "C1"),
        other => panic!("unexpected: {:?}", other),
    }
}

#[test]
fn denormalize_many_siblings_form_a_list() {
    let mut g = case_graph();
    g.add_node(Node::new(s("sample"), s("S2"), Doc::new(), Doc::new(), Vec::new()));
    g.add_edge(Edge::new(s("e"), s("S2"), s("C1"))).unwrap();
    let opts = bare_options();
    let tt = TypeTree::new("case", "cases", Correlation::ToMany)
        .child(TypeTree::new("sample", "samples", Correlation::ToMany));
    let tree = NodeTree::construct(&g, &tt, g.get_node(&s("C1")).unwrap());
    let doc = denormalize_tree(&opts, &g, &tree);
    let samples = list(doc.get("samples"));
    let ids: Vec<String> = samples.iter().map(|d| text(d.get("sample_id"))).collect();
    assert_eq!(ids, vec!["S1", "S2"]);
}

#[test]
fn node_tree_new_and_child() {
    let n = Node::new(s("case"), s("C1"), Doc::new(), Doc::new(), Vec::new());
    let m = Node::new(s("sample"), s("S1"), Doc::new(), Doc::new(), Vec::new());
    let t = NodeTree::new(&n, "cases", Correlation::ToMany).child(NodeTree::new(&m, "samples", Correlation::ToOne));
    assert_eq!(t.title, "cases");
    assert_eq!(t.children.len(), 1);
    assert_eq!(t.children[0].node.id, "S1");
}

#[test]
fn static_type_trees() {
    let sample = sample_type_tree();
    assert_eq!(sample.label, "sample");
    assert_eq!(sample.title, "samples");
    let labels: Vec<&str> = sample.children.iter().map(|c| c.label.as_str()).collect();
    assert_eq!(labels, vec!["annotation", "aliquot", "portion"]);
    let analyte = &sample.children[2].children[1];
    let labels: Vec<&str> = analyte.children.iter().map(|c| c.label.as_str()).collect();
    assert_eq!(labels, vec!["annotation", "aliquot", "center"]);
    assert_eq!(analyte.children[2].correlation, Correlation::ToOne);

    let file = file_type_tree();
    assert_eq!(file.children.len(), 10);
    assert_eq!(file.children[4].title, "data_type");
    assert_eq!(file.children[4].children[0].title, "data_category");
    assert_eq!(file.children[9].title, "metadata_files");

    let case = case_type_tree();
    assert_eq!(case.children.len(), 11);
    assert_eq!(case.children[6].children.len(), 4);
    assert_eq!(case.children[6].children[3].label, "file");
    assert_eq!(case.children[9].children[0].title, "treatments");
}

#[test]
fn builders_expose_options_and_graph() {
    let g = case_graph();
    let opts = bare_options();
    let a = ActiveBuilder::new(&opts, &g);
    assert_eq!(a.graph().nodes.len(), 3);
    assert_eq!(a.options().datamodel.node_types.len(), 3);
    let l = LegacyBuilder::new(&opts, &g);
    assert!(l.options().case_to_file_paths.is_empty());
}

#[test]
fn builder_methods_denormalize() {
    let g = case_graph();
    let opts = bare_options();
    let builder = ActiveBuilder::new(&opts, &g);
    let tt = TypeTree::new("portion", "portions", Correlation::ToMany)
        .child(TypeTree::new("sample", "sample", Correlation::ToOne));
    let tree = NodeTree::construct(&g, &tt, g.get_node(&s("P1")).unwrap());
    let doc = builder.denormalize_tree(&tree);
    assert_eq!(keys(&doc), vec!["portion_id", "sample"]);
    let base = builder.get_base_doc(g.get_node(&s("S1")).unwrap());
    assert_eq!(keys(&base), vec!["sample_id"]);
    assert!(builder.is_prop_hidden(g.get_node(&s("S1")).unwrap(), "project_id"));
}
