use esbuild::datamodel::{Datamodel, PropertyType, SchemaNode};
use esbuild::errors::EBError;
use esbuild::node::{Node, NodeCategory};
use esbuild::doc::Doc;
use esbuild::resolver::{load_yaml, yaml_str, YamlValue};

fn s(x: &str) -> String {
    x.to_string()
}

const DEFINITIONS: &str = "id: _definitions
ubiquitous_properties:
  type:
    type: string
  id:
    type: string
";

const CASE: &str = "id: case
category: administrative
properties:
  $ref: \"_definitions.yaml#/ubiquitous_properties\"
  submitter_id:
    type: String
  age:
    type: integer
";

const SAMPLE: &str = "id: sample
category: biospecimen
links:
  - name: cases
    backref: samples
    label: derived_from
    target_type: case
  - subgroup:
      - name: projects
        backref: samples
        label: member_of
        target_type: project
properties:
  cases:
    type: string
  tissue:
    type: enum
  created:
    type: datetime
  project_id:
    type: string
";

const PROJECT: &str = "id: project
category: administrative
properties:
  project_id:
    type: string
  name:
    description: no type given
";

fn sources(extra: &[&str]) -> Vec<String> {
    let mut v = vec![s(DEFINITIONS), s(CASE), s(SAMPLE), s(PROJECT)];
    for e in extra {
        v.push(s(e));
    }
    v
}

fn prop_names(dm: &Datamodel, label: &str) -> Vec<String> {
    dm.get(label).unwrap().props.iter().map(|(k, _)| k.clone()).collect()
}

#[test]
fn property_type_parse() {
    assert_eq!(PropertyType::parse("datetime").unwrap(), PropertyType::String);
    assert_eq!(PropertyType::parse("enum").unwrap(), PropertyType::String);
    assert_eq!(PropertyType::parse("BOOL").unwrap(), PropertyType::Boolean);
    assert_eq!(PropertyType::parse("Number").unwrap(), PropertyType::Decimal);
    assert_eq!(PropertyType::parse("integer").unwrap(), PropertyType::Decimal);
    assert!(matches!(PropertyType::parse("widget"), Err(EBError::BuildError(_))));
    assert!(matches!(PropertyType::parse_lowered("STRING"), Err(EBError::BuildError(_))));
    assert_eq!(PropertyType::parse_lowered("string").unwrap(), PropertyType::String);
}

#[test]
fn category_from_name() {
    assert_eq!(NodeCategory::from_name("analysis"), NodeCategory::Analysis);
    assert_eq!(NodeCategory::from_name("data_file"), NodeCategory::DataFile);
    assert_eq!(NodeCategory::from_name("metadata_file"), NodeCategory::MetadataFile);
    assert_eq!(NodeCategory::from_name("something"), NodeCategory::Other);
}

#[test]
fn datamodel_from_sources() {
    let dm = Datamodel::new(&sources(&[])).unwrap();
    let labels: Vec<&str> = dm.node_types.iter().map(|t| t.label.as_str()).collect();
    assert_eq!(labels, vec!["case", "sample", "project"]);
    assert_eq!(prop_names(&dm, "case"), vec!["type", "id", "submitter_id", "age"]);
    let case = dm.get("case").unwrap();
    assert_eq!(case.category, NodeCategory::Administrative);
    assert_eq!(case.props[2].1, PropertyType::String);
    assert_eq!(case.props[3].1, PropertyType::Decimal);
    assert_eq!(prop_names(&dm, "sample"), vec!["tissue", "created", "project_id"]);
    assert!(dm.get("sample").unwrap().props.iter().all(|(_, t)| *t == PropertyType::String));
    assert_eq!(prop_names(&dm, "project"), vec!["project_id", "name"]);
    assert_eq!(dm.get("project").unwrap().props[1].1, PropertyType::String);
    let n = Node::new(s("sample"), s("S"), Doc::new(), Doc::new(), Vec::new());
    assert_eq!(n.category(&dm), Some(NodeCategory::Biospecimen));
}

#[test]
fn datamodel_links_and_backrefs() {
    let dm = Datamodel::new(&sources(&[])).unwrap();
    let sample = dm.get("sample").unwrap();
    let names: Vec<&str> = sample.links.iter().map(|l| l.name.as_str()).collect();
    assert_eq!(names, vec!["cases", "projects"]);
    assert_eq!(sample.links[1].dst_label, "project");
    assert_eq!(sample.links[1].src_label, "sample");
    assert!(sample.backrefs.is_empty());
    let case = dm.get("case").unwrap();
    assert_eq!(case.backrefs.len(), 1);
    let b = &case.backrefs[0];
    assert_eq!(b.src_label, "case");
    assert_eq!(b.dst_label, "sample");
    assert_eq!(b.name, "samples");
    assert_eq!(b.backref, "cases");
    assert_eq!(b.label, "derived_from");
    let project = dm.get("project").unwrap();
    assert_eq!(project.backrefs.len(), 1);
    assert_eq!(project.backrefs[0].name, "samples");
    assert_eq!(project.backrefs[0].backref, "projects");
}

#[test]
fn datamodel_unknown_property_type_fails() {
    let bad = "id: thing\ncategory: other\nproperties:\n  p:\n    type: widget\n";
    assert!(matches!(Datamodel::new(&sources(&[bad])), Err(EBError::BuildError(_))));
}

#[test]
fn datamodel_duplicate_label_fails() {
    assert!(matches!(Datamodel::new(&sources(&[CASE])), Err(EBError::BuildError(_))));
}

#[test]
fn datamodel_unknown_link_target_fails() {
    let bad = "id: thing\ncategory: other\nlinks:\n  - name: x\n    backref: y\n    label: z\n    target_type: nowhere\nproperties:\n  p:\n    type: string\n";
    assert!(matches!(Datamodel::new(&sources(&[bad])), Err(EBError::BuildError(_))));
}

#[test]
fn datamodel_missing_link_field_fails() {
    let bad = "id: thing\ncategory: other\nlinks:\n  - name: x\n    backref: y\n    target_type: case\nproperties:\n  p:\n    type: string\n";
    assert!(matches!(Datamodel::new(&sources(&[bad])), Err(EBError::BuildError(_))));
}

#[test]
fn datamodel_missing_properties_fails() {
    let bad = "id: thing\ncategory: other\n";
    assert!(matches!(Datamodel::new(&sources(&[bad])), Err(EBError::BuildError(_))));
}

#[test]
fn ref_cycle_fails() {
    let bad = "id: loop\ncategory: other\nproperties:\n  $ref: \"#/properties\"\n";
    assert!(matches!(Datamodel::new(&sources(&[bad])), Err(EBError::BuildError(_))));
}

#[test]
fn ref_missing_schema_fails() {
    let bad = "id: thing\ncategory: other\nproperties:\n  $ref: \"nothing.yaml#/x\"\n";
    assert!(matches!(Datamodel::new(&sources(&[bad])), Err(EBError::BuildError(_))));
}

#[test]
fn ref_malformed_pointer_fails() {
    let bad = "id: thing\ncategory: other\nproperties:\n  $ref: \"nothing.yaml\"\n";
    assert!(matches!(Datamodel::new(&sources(&[bad])), Err(EBError::BuildError(_))));
}

#[test]
fn ref_missing_target_fails() {
    let bad = "id: thing\ncategory: other\nproperties:\n  $ref: \"_definitions.yaml#/absent\"\n";
    assert!(matches!(Datamodel::new(&sources(&[bad])), Err(EBError::BuildError(_))));
}

#[test]
fn ref_within_same_schema_and_nested_path() {
    let good = "id: thing\ncategory: other\ncommon:\n  shared:\n    a:\n      type: boolean\nproperties:\n  $ref: \"#/common/shared\"\n  b:\n    type: float\n";
    let dm = Datamodel::new(&sources(&[good])).unwrap();
    let t = dm.get("thing").unwrap();
    assert_eq!(prop_names(&dm, "thing"), vec!["a", "b"]);
    assert_eq!(t.props[0].1, PropertyType::Boolean);
    assert_eq!(t.props[1].1, PropertyType::Decimal);
    assert_eq!(t.category, NodeCategory::Other);
}

#[test]
fn unparsable_source_is_parse_error() {
    assert!(matches!(Datamodel::new(&vec![s("key: [unclosed")]), Err(EBError::ParseError(_))));
    assert!(matches!(load_yaml("a: [b"), Err(EBError::ParseError(_))));
}

#[test]
fn load_yaml_and_yaml_str() {
    let y = load_yaml("id: case\nother: 3\n").unwrap();
    assert_eq!(yaml_str(&y, "id").unwrap(), "case");
    assert!(matches!(yaml_str(&y, "other"), Err(EBError::BuildError(_))));
    assert!(matches!(yaml_str(&y, "absent"), Err(EBError::BuildError(_))));
    match y {
        YamlValue::Hash(entries) => assert_eq!(entries.len(), 2),
        other => panic!("unexpected: {:?}", other),
    }
}

#[test]
fn schema_node_lookups() {
    let mut root = SchemaNode::new(s("root"));
    let mut child = SchemaNode::new(s("id"));
    child.value = Some(s("case"));
    root.children.push(child);
    root.children.push(SchemaNode::new(s("id")));
    assert_eq!(root.get_kv("id"), Some(s("case")));
    assert!(root.get("missing").is_none());
    assert_eq!(root.get("id").unwrap().value, Some(s("case")));
}
