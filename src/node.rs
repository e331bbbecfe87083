use vstd::prelude::*;
use vstd::string::StringExecFns;
use crate::doc::Doc;
use crate::edge::{EdgeType, strip_underscores, strip_underscores_of};
use crate::text::str_eq;
use crate::datamodel::{Datamodel, PropertyType};

verus! {

/// A cached node: identifier, label, properties, system annotations and
/// access-control list.
#[derive(Debug)]
pub struct Node {
    pub id: String,
    pub label: String,
    pub props: Doc,
    pub sysan: Doc,
    pub acl: Vec<String>,
}

/// The coarse classification of node types.
#[derive(Clone, Copy, Debug, PartialEq, Eq, Structural)]
pub enum NodeCategory {
    DataFile,
    Biospecimen,
    Notation,
    Administrative,
    Analysis,
    Clinical,
    IndexFile,
    MetadataFile,
    Other,
}

/// A node type of the data model.
#[derive(Debug)]
pub struct NodeType {
    pub label: String,
    /// Property names with their types, in schema order.
    pub props: Vec<(String, PropertyType)>,
    pub category: NodeCategory,
    pub links: Vec<EdgeType>,
    pub backrefs: Vec<EdgeType>,
}

/// The category that a schema's `category` string names.
pub open spec fn category_of_name(s: Seq<char>) -> NodeCategory {
    if s == "data_file"@ {
        NodeCategory::DataFile
    } else if s == "biospecimen"@ {
        NodeCategory::Biospecimen
    } else if s == "notation"@ {
        NodeCategory::Notation
    } else if s == "administrative"@ {
        NodeCategory::Administrative
    } else if s == "analysis"@ {
        NodeCategory::Analysis
    } else if s == "clinical"@ {
        NodeCategory::Clinical
    } else if s == "index_file"@ {
        NodeCategory::IndexFile
    } else if s == "metadata_file"@ {
        NodeCategory::MetadataFile
    } else {
        NodeCategory::Other
    }
}

impl NodeCategory {
    /// The category that a schema's `category` string names; any other
    /// string is `Other`.
    pub fn from_name(category: &str) -> (r: NodeCategory)
        ensures
            r == category_of_name(category@),
    {
        if str_eq(category, "data_file") {
            NodeCategory::DataFile
        } else if str_eq(category, "biospecimen") {
            NodeCategory::Biospecimen
        } else if str_eq(category, "notation") {
            NodeCategory::Notation
        } else if str_eq(category, "administrative") {
            NodeCategory::Administrative
        } else if str_eq(category, "analysis") {
            NodeCategory::Analysis
        } else if str_eq(category, "clinical") {
            NodeCategory::Clinical
        } else if str_eq(category, "index_file") {
            NodeCategory::IndexFile
        } else if str_eq(category, "metadata_file") {
            NodeCategory::MetadataFile
        } else {
            NodeCategory::Other
        }
    }
}

impl Node {
    pub fn new(label: String, id: String, props: Doc, sysan: Doc, acl: Vec<String>) -> (r: Node)
        ensures
            r.label == label,
            r.id == id,
            r.props == props,
            r.sysan == sysan,
            r.acl == acl,
    {
        Node { label, id, props, sysan, acl }
    }
}

impl Node {
    /// The category that the data model declares for this node's type.
    pub fn category(&self, datamodel: &Datamodel) -> (r: Option<NodeCategory>)
        ensures
            r == match datamodel.type_of(self.label@) {
                Some(t) => Some(t.category),
                None => None::<NodeCategory>,
            },
    {
        match datamodel.get(self.label.as_str()) {
            Some(t) => Some(t.category),
            None => None,
        }
    }
}

/// `"node_"` followed by the label without underscores.
pub open spec fn node_tablename(label: Seq<char>) -> Seq<char> {
    "node_"@ + strip_underscores(label)
}

impl NodeType {
    /// The relational table that holds the nodes of this type.
    pub fn get_tablename(&self) -> (r: String)
        ensures
            r@ == node_tablename(self.label@),
    {
        String::from_str("node_").concat(strip_underscores_of(self.label.as_str()).as_str())
    }
}

} // verus!
