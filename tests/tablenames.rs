use esbuild::edge::{fragment_initials_of, hex_string, prefix, strip_underscores_of, Edge, EdgeType};
use esbuild::node::{NodeCategory, NodeType};

fn edge_type(src: &str, label: &str, dst: &str) -> EdgeType {
    EdgeType {
        src_label: src.to_string(),
        dst_label: dst.to_string(),
        label: label.to_string(),
        name: "n".to_string(),
        backref: "b".to_string(),
    }
}

#[test]
fn table_name_under_threshold() {
    let t = edge_type("sample", "relates_to", "aliquot");
    let name = t.get_tablename();
    assert_eq!(name, "edge_samplerelatestoaliquot");
    assert_eq!(name.len(), 27);
}

#[test]
fn table_name_over_threshold() {
    let t = edge_type("submitted_aligned_reads", "data_from", "aliquot");
    assert_eq!(t.naive_tablename(), "edge_submittedalignedreadsdatafromaliquot");
    assert_eq!(t.naive_tablename().len(), 41);
    let name = t.get_tablename();
    assert!(name.starts_with("edge_"));
    assert_eq!(&name[5..13], "dde952be");
    assert_eq!(name, "edge_dde952be_sualredafral");
}

#[test]
fn table_name_boundary_forty_and_forty_one() {
    let forty = edge_type("abcdefghijklmnopqrstuvwxy", "relates", "abc");
    assert_eq!(forty.naive_tablename().len(), 40);
    assert_eq!(forty.get_tablename(), "edge_abcdefghijklmnopqrstuvwxyrelatesabc");
    let forty_one = edge_type("abcdefghijklmnopqrstuvwxy", "relates", "abcd");
    assert_eq!(forty_one.naive_tablename().len(), 41);
    assert_eq!(forty_one.get_tablename(), "edge_3a3668eb_abreab");
}

#[test]
fn hashed_tablename_uses_given_digest() {
    let t = edge_type("a_very_long_source_label_name", "x_y", "dst");
    let digest = vec![0xde, 0xad, 0x0b, 0xef, 0x01, 0x02];
    assert_eq!(t.hashed_tablename(&digest), "edge_dead0bef_avelosolanxyds");
}

#[test]
fn node_tablename_strips_underscores() {
    let t = NodeType {
        label: "submitted_aligned_reads".to_string(),
        props: Vec::new(),
        category: NodeCategory::DataFile,
        links: Vec::new(),
        backrefs: Vec::new(),
    };
    assert_eq!(t.get_tablename(), "node_submittedalignedreads");
}

#[test]
fn text_helpers() {
    assert_eq!(strip_underscores_of("_a__b_"), "ab");
    assert_eq!(prefix("abcdef".to_string(), 3), "abc");
    assert_eq!(prefix("ab".to_string(), 10), "ab");
    assert_eq!(fragment_initials_of("a_bc_def"), "abcde");
    assert_eq!(fragment_initials_of("x__yz"), "xyz");
    assert_eq!(hex_string(&[0x00, 0x0f, 0xa0, 0xff]), "000fa0ff");
}

#[test]
fn edge_new_keeps_fields() {
    let e = Edge::new("l".to_string(), "s".to_string(), "d".to_string());
    assert_eq!(e.label, "l");
    assert_eq!(e.src_id, "s");
    assert_eq!(e.dst_id, "d");
}
